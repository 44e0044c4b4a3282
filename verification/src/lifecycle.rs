use vstd::prelude::*;
use vstd::string::StrSliceExecFns;
use crate::config::Config;
use crate::config::config_json;
use crate::config::lemma_config_roundtrip;
use crate::config::parse_config;
use crate::config::parse_config_chars;
use crate::system_id::SystemId;

verus! {

/// The whitespace a confirmation line is trimmed of.
pub open spec fn is_space_char(c: char) -> bool {
    c == ' ' || c == '\t' || c == '\n' || c == '\r'
}

pub open spec fn trim_front(s: Seq<char>) -> Seq<char>
    decreases s.len(),
{
    if s.len() > 0 && is_space_char(s[0]) {
        trim_front(s.drop_first())
    } else {
        s
    }
}

pub open spec fn trim_back(s: Seq<char>) -> Seq<char>
    decreases s.len(),
{
    if s.len() > 0 && is_space_char(s.last()) {
        trim_back(s.drop_last())
    } else {
        s
    }
}

pub open spec fn trimmed(s: Seq<char>) -> Seq<char> {
    trim_back(trim_front(s))
}

/// What one prompt answer means: yes, no, or invalid (ask again).
pub open spec fn decision_of_line(s: Seq<char>) -> Option<bool> {
    if trimmed(s) == seq!['y'] {
        Some(true)
    } else if trimmed(s) == seq!['n'] {
        Some(false)
    } else {
        None
    }
}

/// The decision of the first valid line, invalid lines passed over; None
/// when no line decides.
pub open spec fn first_decision(lines: Seq<Seq<char>>) -> Option<bool>
    decreases lines.len(),
{
    if lines.len() == 0 {
        None
    } else if decision_of_line(lines[0]) is Some {
        decision_of_line(lines[0])
    } else {
        first_decision(lines.drop_first())
    }
}

fn is_space(c: char) -> (r: bool)
    ensures
        r == is_space_char(c),
{
    c == ' ' || c == '\t' || c == '\n' || c == '\r'
}

/// Interprets one prompt answer: `"y"` or `"n"` once trimmed of surrounding
/// whitespace; anything else is invalid and re-prompts.
pub fn line_decision(line: &str) -> (r: Option<bool>)
    ensures
        r == decision_of_line(line@),
{
    let n = line.unicode_len();
    let mut start: usize = 0;
    proof {
        assert(line@.subrange(0, n as int) =~= line@);
    }
    while start < n && is_space(line.get_char(start))
        invariant
            0 <= start <= n,
            n == line@.len(),
            trim_front(line@) == trim_front(line@.subrange(start as int, n as int)),
        decreases n - start,
    {
        proof {
            assert(line@.subrange(start as int, n as int).drop_first() =~= line@.subrange(
                start as int + 1,
                n as int,
            ));
        }
        start = start + 1;
    }
    proof {
        assert(trim_front(line@) == line@.subrange(start as int, n as int));
    }
    let mut end: usize = n;
    while end > start && is_space(line.get_char(end - 1))
        invariant
            start <= end <= n,
            n == line@.len(),
            trim_front(line@) == line@.subrange(start as int, n as int),
            trim_back(line@.subrange(start as int, n as int)) == trim_back(
                line@.subrange(start as int, end as int),
            ),
        decreases end,
    {
        proof {
            assert(line@.subrange(start as int, end as int).drop_last() =~= line@.subrange(
                start as int,
                end as int - 1,
            ));
            assert(line@.subrange(start as int, end as int).last() == line@[end as int - 1]);
        }
        end = end - 1;
    }
    let ghost tr = trimmed(line@);
    proof {
        assert(tr == line@.subrange(start as int, end as int));
    }
    if end - start == 1 {
        let c = line.get_char(start);
        proof {
            assert(tr =~= seq![c]);
            assert(seq![c][0] == c);
            assert(seq!['y'][0] == 'y');
            assert(seq!['n'][0] == 'n');
        }
        if c == 'y' {
            Some(true)
        } else if c == 'n' {
            Some(false)
        } else {
            None
        }
    } else {
        proof {
            assert(seq!['y'].len() == 1);
            assert(seq!['n'].len() == 1);
        }
        None
    }
}

/// The decision of a recorded sequence of prompt answers.
pub fn confirm_from_lines(lines: &Vec<String>) -> (r: Option<bool>)
    ensures
        r == first_decision(lines.deep_view()),
{
    let ghost all = lines.deep_view();
    proof {
        assert(all.subrange(0, all.len() as int) =~= all);
    }
    let mut i: usize = 0;
    while i < lines.len()
        invariant
            0 <= i <= lines.len(),
            all == lines.deep_view(),
            all.len() == lines.len(),
            first_decision(all) == first_decision(all.subrange(i as int, all.len() as int)),
        decreases lines.len() - i,
    {
        let d = line_decision(lines[i].as_str());
        proof {
            assert(all.subrange(i as int, all.len() as int)[0] == all[i as int]);
        }
        if let Some(b) = d {
            return Some(b);
        }
        proof {
            assert(all.subrange(i as int, all.len() as int).drop_first() =~= all.subrange(
                i as int + 1,
                all.len() as int,
            ));
        }
        i = i + 1;
    }
    proof {
        assert(all.subrange(all.len() as int, all.len() as int) =~= Seq::<Seq<char>>::empty());
    }
    None
}

/// How one resolution run ends. Exactly one file write happens over a run,
/// and only on `Created`: the caller persists the returned default record
/// under the id. `Loaded`, `Declined` and `NoDecision` write nothing, and an
/// existing entry is never overwritten.
pub enum ResolveResult {
    /// An entry existed and deserialized; its record is returned.
    Loaded(Config),
    /// No entry existed and creation was approved; the default record is to
    /// be written.
    Created(Config),
    /// No entry existed and the user declined creation: a normal outcome
    /// carrying no record.
    Declined,
    /// An entry existed but did not deserialize: fatal, not auto-repaired.
    MalformedEntry,
    /// The answer stream ended before a valid yes or no.
    NoDecision,
}

/// What resolution must return, as a relation between its inputs' models
/// and its result.
pub open spec fn resolve_post(
    existing: Option<Seq<char>>,
    auto_confirm: bool,
    lines: Seq<Seq<char>>,
    r: ResolveResult,
) -> bool {
    match existing {
        Some(content) => match parse_config_chars(content) {
            Some(d) => r matches ResolveResult::Loaded(c) && c@ == d,
            None => r matches ResolveResult::MalformedEntry,
        },
        None => if auto_confirm {
            r matches ResolveResult::Created(c) && c@ == Seq::<char>::empty()
        } else {
            match first_decision(lines) {
                Some(true) => r matches ResolveResult::Created(c) && c@ == Seq::<char>::empty(),
                Some(false) => r matches ResolveResult::Declined,
                None => r matches ResolveResult::NoDecision,
            }
        },
    }
}

pub open spec fn view_of_existing(existing: Option<&String>) -> Option<Seq<char>> {
    match existing {
        Some(s) => Some(s@),
        None => None,
    }
}

/// Resolves a run against the stored entry for the id, if any, under the
/// given consent policy, the prompt answers supplied as recorded lines.
/// Present entries are loaded, never rewritten; an absent entry is created
/// as the default record when auto-confirmed or approved by the first valid
/// answer.
pub fn resolve_with_input(
    existing: Option<&String>,
    auto_confirm: bool,
    lines: &Vec<String>,
) -> (r: ResolveResult)
    ensures
        resolve_post(view_of_existing(existing), auto_confirm, lines.deep_view(), r),
{
    match existing {
        Some(content) => match parse_config(content.as_str()) {
            Some(c) => ResolveResult::Loaded(c),
            None => ResolveResult::MalformedEntry,
        },
        None => {
            if auto_confirm {
                ResolveResult::Created(Config::default())
            } else {
                match confirm_from_lines(lines) {
                    Some(true) => ResolveResult::Created(Config::default()),
                    Some(false) => ResolveResult::Declined,
                    None => ResolveResult::NoDecision,
                }
            }
        },
    }
}

/// The storage path for an id: a fixed directory, the id, a fixed
/// extension. The id is lowercase hexadecimal, so the path holds no
/// separators or whitespace beyond the fixed directory.
pub fn config_path_for(id: &SystemId) -> (r: String)
    ensures
        r@ == "system-configs/"@ + id.id@ + ".json"@,
{
    let mut path = "system-configs/".to_owned();
    path.append(id.id.as_str());
    path.append(".json");
    path
}

/// Confirmation loop: however many invalid answers come first, the first
/// valid one decides; a line trimming to "y" approves creation and one
/// trimming to "n" declines it.
pub proof fn lemma_confirmation_loop(lines: Seq<Seq<char>>, k: int)
    requires
        0 <= k < lines.len(),
        forall|j: int| 0 <= j < k ==> decision_of_line(#[trigger] lines[j]) is None,
    ensures
        trimmed(lines[k]) == seq!['y'] ==> first_decision(lines) == Some(true),
        trimmed(lines[k]) == seq!['n'] ==> first_decision(lines) == Some(false),
    decreases k,
{
    assert(seq!['n'][0] == 'n');
    assert(seq!['y'][0] == 'y');
    assert(seq!['n'] != seq!['y']);
    if k == 0 {
    } else {
        assert(decision_of_line(lines[0]) is None);
        assert forall|j: int| 0 <= j < k - 1 implies decision_of_line(
            #[trigger] lines.drop_first()[j],
        ) is None by {
            assert(lines.drop_first()[j] == lines[j + 1]);
        }
        lemma_confirmation_loop(lines.drop_first(), k - 1);
        assert(lines.drop_first()[k - 1] == lines[k]);
    }
}

/// A record written at creation reads back identically on the next run:
/// resolving against the serialized form of any record loads an equal
/// record, whatever the flag or the prompt answers.
pub proof fn lemma_create_then_load(
    dir: Seq<char>,
    auto_confirm: bool,
    lines: Seq<Seq<char>>,
    r: ResolveResult,
)
    requires
        resolve_post(Some(config_json(dir)), auto_confirm, lines, r),
    ensures
        r matches ResolveResult::Loaded(c) && c@ == dir,
{
    lemma_config_roundtrip(dir);
}

/// Idempotent load: once an entry exists, every resolution against it ends
/// the same way, loading the same record, whatever the consent flag or the
/// prompt answers; none of them creates or rewrites anything.
pub proof fn lemma_idempotent_load(
    content: Seq<char>,
    auto_confirm1: bool,
    lines1: Seq<Seq<char>>,
    r1: ResolveResult,
    auto_confirm2: bool,
    lines2: Seq<Seq<char>>,
    r2: ResolveResult,
)
    requires
        resolve_post(Some(content), auto_confirm1, lines1, r1),
        resolve_post(Some(content), auto_confirm2, lines2, r2),
    ensures
        !(r1 matches ResolveResult::Created(_)),
        !(r2 matches ResolveResult::Created(_)),
        r1 matches ResolveResult::Loaded(c1) ==> (r2 matches ResolveResult::Loaded(c2) && c1@
            == c2@),
        r1 matches ResolveResult::MalformedEntry ==> r2 matches ResolveResult::MalformedEntry,
{
}

} // verus!
