use vstd::prelude::*;
use vstd::string::StringExecFns;
use vstd::string::StrSliceExecFns;

verus! {

/// The per-machine configuration record: one field, a sync-directory path.
/// Its model is the field's character sequence; the default record has the
/// empty string.
#[derive(Debug)]
pub struct Config {
    sync_directory: String,
}

impl View for Config {
    type V = Seq<char>;

    closed spec fn view(&self) -> Seq<char> {
        self.sync_directory@
    }
}

impl Config {
    pub fn new(sync_directory: String) -> (r: Config)
        ensures
            r@ == sync_directory@,
    {
        Config { sync_directory }
    }

    pub fn sync_directory(&self) -> (r: &String)
        ensures
            r@ == self@,
    {
        &self.sync_directory
    }
}

impl Default for Config {
    fn default() -> (r: Config)
        ensures
            r@ == Seq::<char>::empty(),
    {
        Config { sync_directory: String::new() }
    }
}

impl Clone for Config {
    fn clone(&self) -> (r: Config)
        ensures
            r@ == self@,
    {
        Config { sync_directory: self.sync_directory.clone() }
    }
}

/// The hexadecimal digit character for a value below sixteen, lowercase.
pub open spec fn hex_digit_char(x: int) -> char
    recommends
        0 <= x < 16,
{
    if x < 10 {
        ((48 + x) as u8) as char
    } else {
        ((87 + x) as u8) as char
    }
}

/// The value of a hexadecimal digit character, either case; -1 when the
/// character is no such digit.
pub open spec fn hex_val(c: char) -> int {
    if 48 <= c as u32 && c as u32 <= 57 {
        c as u32 - 48
    } else if 97 <= c as u32 && c as u32 <= 102 {
        c as u32 - 87
    } else if 65 <= c as u32 && c as u32 <= 70 {
        c as u32 - 55
    } else {
        -1
    }
}

pub open spec fn is_hex_digit(c: char) -> bool {
    hex_val(c) >= 0
}

/// How one character appears inside a JSON string literal: quote and
/// backslash get a backslash escape, the named control characters get their
/// short escapes, the remaining control characters a \u00XX escape, and
/// every other character stands as itself.
pub open spec fn escape_char(c: char) -> Seq<char> {
    if c == '"' {
        seq!['\\', '"']
    } else if c == '\\' {
        seq!['\\', '\\']
    } else if c as u32 == 8 {
        seq!['\\', 'b']
    } else if c as u32 == 9 {
        seq!['\\', 't']
    } else if c as u32 == 10 {
        seq!['\\', 'n']
    } else if c as u32 == 12 {
        seq!['\\', 'f']
    } else if c as u32 == 13 {
        seq!['\\', 'r']
    } else if (c as u32) < 32 {
        let code = (c as u32) as int;
        let hi = hex_digit_char(code / 16);
        let lo = hex_digit_char(code % 16);
        seq!['\\', 'u', '0', '0', hi, lo]
    } else {
        seq![c]
    }
}

pub open spec fn escape_chars(s: Seq<char>) -> Seq<char>
    decreases s.len(),
{
    if s.len() == 0 {
        Seq::<char>::empty()
    } else {
        escape_char(s[0]) + escape_chars(s.drop_first())
    }
}

pub open spec fn json_prefix() -> Seq<char> {
    "{\"sync_directory\":\""@
}

pub open spec fn json_suffix() -> Seq<char> {
    "\"}"@
}

/// The exact serialized form of a record whose sync directory is `dir`.
pub open spec fn config_json(dir: Seq<char>) -> Seq<char> {
    json_prefix() + escape_chars(dir) + json_suffix()
}

proof fn lemma_escape_chars_snoc(s: Seq<char>, last: char)
    ensures
        escape_chars(s.push(last)) == escape_chars(s) + escape_char(last),
    decreases s.len(),
{
    if s.len() == 0 {
        assert(s.push(last)[0] == last);
        assert(s.push(last).drop_first() =~= Seq::<char>::empty());
        assert(escape_chars(s.push(last).drop_first()) == Seq::<char>::empty());
        assert(escape_chars(s) == Seq::<char>::empty());
        assert(escape_chars(s.push(last)) =~= escape_chars(s) + escape_char(last));
    } else {
        assert(s.push(last).drop_first() =~= s.drop_first().push(last));
        lemma_escape_chars_snoc(s.drop_first(), last);
        assert(escape_chars(s.push(last)) =~= escape_chars(s) + escape_char(last));
    }
}

fn hex_digit(x: u8) -> (r: char)
    requires
        x < 16,
    ensures
        r == hex_digit_char(x as int),
{
    if x < 10 {
        (48 + x) as char
    } else {
        (87 + x) as char
    }
}

/// Appends the escaped form of `s` to `out`.
fn escape_append(out: &mut String, s: &str)
    ensures
        final(out)@ == old(out)@ + escape_chars(s@),
{
    let n = s.unicode_len();
    let ghost base = old(out)@;
    let mut i: usize = 0;
    while i < n
        invariant
            0 <= i <= n,
            n == s@.len(),
            out@ == base + escape_chars(s@.subrange(0, i as int)),
        decreases n - i,
    {
        let c = s.get_char(i);
        proof {
            assert(s@.subrange(0, i as int).push(c) =~= s@.subrange(0, i as int + 1));
            lemma_escape_chars_snoc(s@.subrange(0, i as int), c);
        }
        if c == '"' {
            crate::string_push(out, '\\');
            crate::string_push(out, '"');
        } else if c == '\\' {
            crate::string_push(out, '\\');
            crate::string_push(out, '\\');
        } else if c as u32 == 8 {
            crate::string_push(out, '\\');
            crate::string_push(out, 'b');
        } else if c as u32 == 9 {
            crate::string_push(out, '\\');
            crate::string_push(out, 't');
        } else if c as u32 == 10 {
            crate::string_push(out, '\\');
            crate::string_push(out, 'n');
        } else if c as u32 == 12 {
            crate::string_push(out, '\\');
            crate::string_push(out, 'f');
        } else if c as u32 == 13 {
            crate::string_push(out, '\\');
            crate::string_push(out, 'r');
        } else if (c as u32) < 32 {
            let code = c as u32 as u8;
            crate::string_push(out, '\\');
            crate::string_push(out, 'u');
            crate::string_push(out, '0');
            crate::string_push(out, '0');
            crate::string_push(out, hex_digit(code / 16));
            crate::string_push(out, hex_digit(code % 16));
        } else {
            crate::string_push(out, c);
        }
        assert(out@ =~= base + escape_chars(s@.subrange(0, i as int + 1)));
        i = i + 1;
    }
    proof {
        assert(s@.subrange(0, n as int) =~= s@);
    }
}

/// Serializes a record to the fixed self-describing text form, the field
/// name preserved: `{"sync_directory":"<escaped value>"}`.
pub fn encode_config(c: &Config) -> (r: String)
    ensures
        r@ == config_json(c@),
{
    let mut out = "{\"sync_directory\":\"".to_owned();
    escape_append(&mut out, c.sync_directory.as_str());
    out.append("\"}");
    out
}

pub open spec fn opt_cons(c: char, rest: Option<Seq<char>>) -> Option<Seq<char>> {
    match rest {
        Some(t) => Some(seq![c] + t),
        None => None,
    }
}

/// Reads a JSON string body back: each escape becomes the character it
/// stands for; a raw quote or raw control character is malformed.
pub open spec fn unescape(s: Seq<char>) -> Option<Seq<char>>
    decreases s.len(),
{
    if s.len() == 0 {
        Some(Seq::<char>::empty())
    } else if s[0] == '\\' {
        if s.len() < 2 {
            None
        } else if s[1] == '"' || s[1] == '\\' || s[1] == '/' {
            opt_cons(s[1], unescape(s.subrange(2, s.len() as int)))
        } else if s[1] == 'b' {
            opt_cons('\u{8}', unescape(s.subrange(2, s.len() as int)))
        } else if s[1] == 't' {
            opt_cons('\t', unescape(s.subrange(2, s.len() as int)))
        } else if s[1] == 'n' {
            opt_cons('\n', unescape(s.subrange(2, s.len() as int)))
        } else if s[1] == 'f' {
            opt_cons('\u{c}', unescape(s.subrange(2, s.len() as int)))
        } else if s[1] == 'r' {
            opt_cons('\r', unescape(s.subrange(2, s.len() as int)))
        } else if s[1] == 'u' {
            if s.len() >= 6 && s[2] == '0' && s[3] == '0' && is_hex_digit(s[4]) && is_hex_digit(
                s[5],
            ) {
                let code = 16 * hex_val(s[4]) + hex_val(s[5]);
                opt_cons((code as u8) as char, unescape(s.subrange(6, s.len() as int)))
            } else {
                None
            }
        } else {
            None
        }
    } else if s[0] == '"' {
        None
    } else if (s[0] as u32) < 32 {
        None
    } else {
        opt_cons(s[0], unescape(s.drop_first()))
    }
}

/// The position of the quote that closes a JSON string body, skipping
/// escape pairs; None when no unescaped quote follows.
pub open spec fn find_close(s: Seq<char>) -> Option<int>
    decreases s.len(),
{
    if s.len() == 0 {
        None
    } else if s[0] == '"' {
        Some(0int)
    } else if s[0] == '\\' {
        if s.len() < 2 {
            None
        } else {
            match find_close(s.subrange(2, s.len() as int)) {
                Some(k) => Some(2 + k),
                None => None,
            }
        }
    } else {
        match find_close(s.drop_first()) {
            Some(k) => Some(1 + k),
            None => None,
        }
    }
}

/// What a serialized record means: the sync directory it carries, or None
/// when the text is not of the fixed form.
pub open spec fn parse_config_chars(s: Seq<char>) -> Option<Seq<char>> {
    let p = json_prefix();
    if s.len() >= p.len() && s.subrange(0, p.len() as int) == p {
        let t = s.subrange(p.len() as int, s.len() as int);
        match find_close(t) {
            Some(k) => if t.subrange(k, t.len() as int) == json_suffix() {
                unescape(t.subrange(0, k))
            } else {
                None
            },
            None => None,
        }
    } else {
        None
    }
}

fn hex_val_of(c: char) -> (r: Option<u8>)
    ensures
        match r {
            Some(v) => hex_val(c) == v as int && v < 16,
            None => hex_val(c) == -1,
        },
{
    let u = c as u32;
    if 48 <= u && u <= 57 {
        Some((u - 48) as u8)
    } else if 97 <= u && u <= 102 {
        Some((u - 87) as u8)
    } else if 65 <= u && u <= 70 {
        Some((u - 55) as u8)
    } else {
        None
    }
}

fn find_close_from(s: &str, from: usize, n: usize) -> (r: Option<usize>)
    requires
        from <= n,
        n == s@.len(),
    ensures
        match r {
            Some(k) => from <= k < n && s@[k as int] == '"' && find_close(
                s@.subrange(from as int, n as int),
            ) == Some(k - from),
            None => find_close(s@.subrange(from as int, n as int)) is None,
        },
    decreases n - from,
{
    let ghost sub = s@.subrange(from as int, n as int);
    if from >= n {
        return None;
    }
    let c = s.get_char(from);
    if c == '"' {
        Some(from)
    } else if c == '\\' {
        if n - from < 2 {
            None
        } else {
            proof {
                assert(sub.subrange(2, sub.len() as int) =~= s@.subrange(from as int + 2, n as int));
            }
            match find_close_from(s, from + 2, n) {
                Some(k) => Some(k),
                None => None,
            }
        }
    } else {
        proof {
            assert(sub.drop_first() =~= s@.subrange(from as int + 1, n as int));
        }
        match find_close_from(s, from + 1, n) {
            Some(k) => Some(k),
            None => None,
        }
    }
}

fn unescape_into(s: &str, from: usize, to: usize, out: &mut String) -> (ok: bool)
    requires
        from <= to <= s@.len(),
    ensures
        match unescape(s@.subrange(from as int, to as int)) {
            Some(tail) => ok && final(out)@ == old(out)@ + tail,
            None => !ok,
        },
    decreases to - from,
{
    let ghost sub = s@.subrange(from as int, to as int);
    if from >= to {
        proof {
            assert(old(out)@ + Seq::<char>::empty() =~= old(out)@);
        }
        return true;
    }
    let c = s.get_char(from);
    if c == '\\' {
        if to - from < 2 {
            return false;
        }
        let d = s.get_char(from + 1);
        proof {
            assert(sub.subrange(2, sub.len() as int) =~= s@.subrange(from as int + 2, to as int));
        }
        if d == '"' || d == '\\' || d == '/' {
            crate::string_push(out, d);
            let ok = unescape_into(s, from + 2, to, out);
            proof {
                lemma_opt_cons_shift(old(out)@, d, unescape(sub.subrange(2, sub.len() as int)));
            }
            ok
        } else if d == 'b' {
            crate::string_push(out, '\u{8}');
            let ok = unescape_into(s, from + 2, to, out);
            proof {
                lemma_opt_cons_shift(old(out)@, '\u{8}', unescape(sub.subrange(2, sub.len() as int)));
            }
            ok
        } else if d == 't' {
            crate::string_push(out, '\t');
            let ok = unescape_into(s, from + 2, to, out);
            proof {
                lemma_opt_cons_shift(old(out)@, '\t', unescape(sub.subrange(2, sub.len() as int)));
            }
            ok
        } else if d == 'n' {
            crate::string_push(out, '\n');
            let ok = unescape_into(s, from + 2, to, out);
            proof {
                lemma_opt_cons_shift(old(out)@, '\n', unescape(sub.subrange(2, sub.len() as int)));
            }
            ok
        } else if d == 'f' {
            crate::string_push(out, '\u{c}');
            let ok = unescape_into(s, from + 2, to, out);
            proof {
                lemma_opt_cons_shift(old(out)@, '\u{c}', unescape(sub.subrange(2, sub.len() as int)));
            }
            ok
        } else if d == 'r' {
            crate::string_push(out, '\r');
            let ok = unescape_into(s, from + 2, to, out);
            proof {
                lemma_opt_cons_shift(old(out)@, '\r', unescape(sub.subrange(2, sub.len() as int)));
            }
            ok
        } else if d == 'u' {
            if to - from < 6 {
                return false;
            }
            let h2 = s.get_char(from + 2);
            let h3 = s.get_char(from + 3);
            if h2 != '0' || h3 != '0' {
                return false;
            }
            let v4 = hex_val_of(s.get_char(from + 4));
            let v5 = hex_val_of(s.get_char(from + 5));
            match (v4, v5) {
                (Some(a), Some(b)) => {
                    let code: u8 = 16 * a + b;
                    crate::string_push(out, code as char);
                    proof {
                        assert(sub.subrange(6, sub.len() as int) =~= s@.subrange(
                            from as int + 6,
                            to as int,
                        ));
                    }
                    let ok = unescape_into(s, from + 6, to, out);
                    proof {
                        lemma_opt_cons_shift(
                            old(out)@,
                            code as char,
                            unescape(sub.subrange(6, sub.len() as int)),
                        );
                    }
                    ok
                },
                _ => false,
            }
        } else {
            false
        }
    } else if c == '"' {
        false
    } else if (c as u32) < 32 {
        false
    } else {
        crate::string_push(out, c);
        proof {
            assert(sub.drop_first() =~= s@.subrange(from as int + 1, to as int));
        }
        let ok = unescape_into(s, from + 1, to, out);
        proof {
            lemma_opt_cons_shift(old(out)@, c, unescape(sub.drop_first()));
        }
        ok
    }
}

proof fn lemma_opt_cons_shift(base: Seq<char>, c: char, rest: Option<Seq<char>>)
    ensures
        match opt_cons(c, rest) {
            Some(t) => rest is Some && base + t == (base + seq![c]) + rest->Some_0,
            None => rest is None,
        },
{
    match rest {
        Some(t) => {
            assert(base + (seq![c] + t) =~= (base + seq![c]) + t);
        },
        None => {},
    }
}

/// Deserializes a record from its fixed text form; None when the text is
/// malformed. Exactly the texts that `parse_config_chars` accepts are
/// accepted, and the parsed record carries the sync directory it gives.
pub fn parse_config(s: &str) -> (r: Option<Config>)
    ensures
        match r {
            Some(c) => parse_config_chars(s@) == Some(c@),
            None => parse_config_chars(s@) is None,
        },
{
    let n = s.unicode_len();
    let p = "{\"sync_directory\":\"";
    let plen = p.unicode_len();
    if n < plen {
        return None;
    }
    let mut i: usize = 0;
    while i < plen
        invariant
            0 <= i <= plen,
            plen == p@.len(),
            n == s@.len(),
            n >= plen,
            p@ == json_prefix(),
            forall|j: int| 0 <= j < i ==> s@[j] == p@[j],
        decreases plen - i,
    {
        if s.get_char(i) != p.get_char(i) {
            proof {
                assert(s@.subrange(0, plen as int)[i as int] != json_prefix()[i as int]);
            }
            return None;
        }
        i = i + 1;
    }
    proof {
        assert(s@.subrange(0, plen as int) =~= json_prefix());
    }
    let ghost t = s@.subrange(plen as int, n as int);
    match find_close_from(s, plen, n) {
        None => {
            return None;
        },
        Some(k) => {
            proof {
                reveal_strlit("\"}");
            }
            if n - k != 2 || s.get_char(k + 1) != '}' {
                proof {
                    if n - k == 2 {
                        assert(t.subrange(k - plen, t.len() as int)[1] != json_suffix()[1]);
                    } else {
                        assert(t.subrange(k - plen, t.len() as int).len() != json_suffix().len());
                    }
                }
                return None;
            }
            proof {
                assert(t.subrange(k - plen, t.len() as int) =~= json_suffix());
                assert(t.subrange(0, k - plen) =~= s@.subrange(plen as int, k as int));
            }
            let mut out = String::new();
            if unescape_into(s, plen, k, &mut out) {
                Some(Config::new(out))
            } else {
                None
            }
        },
    }
}

proof fn lemma_hex_digit_char_facts(x: int)
    requires
        0 <= x < 16,
    ensures
        hex_val(hex_digit_char(x)) == x,
        is_hex_digit(hex_digit_char(x)),
        hex_digit_char(x) != '"',
        hex_digit_char(x) != '\\',
        (hex_digit_char(x) as u32) >= 32,
{
}

/// Scanning for the closing quote steps over a whole escaped body: the
/// close found after `escape_chars(d)` is the close of `rest`, shifted.
proof fn lemma_find_close_escaped(d: Seq<char>, rest: Seq<char>)
    ensures
        find_close(escape_chars(d) + rest) == match find_close(rest) {
            Some(k) => Some(escape_chars(d).len() + k),
            None => None::<int>,
        },
    decreases d.len(),
{
    if d.len() == 0 {
        assert(escape_chars(d) + rest =~= rest);
    } else {
        let c = d[0];
        let e0 = escape_char(c);
        let erest = escape_chars(d.drop_first());
        let whole = escape_chars(d) + rest;
        lemma_find_close_escaped(d.drop_first(), rest);
        if c == '"' || c == '\\' || (c as u32) == 8 || (c as u32) == 9 || (c as u32) == 10 || (
        c as u32) == 12 || (c as u32) == 13 {
            assert(whole[0] == '\\');
            assert(e0.len() == 2);
            assert(whole.subrange(2, whole.len() as int) =~= erest + rest);
            match find_close(rest) {
                Some(k) => {
                    assert(find_close(erest + rest) == Some(erest.len() + k));
                    assert(find_close(whole) == Some(2 + erest.len() + k));
                    assert(escape_chars(d).len() == 2 + erest.len());
                },
                None => {
                    assert(find_close(erest + rest) is None);
                    assert(find_close(whole) is None);
                },
            }
        } else if (c as u32) < 32 {
            let code = (c as u32) as int;
            let hi = hex_digit_char(code / 16);
            let lo = hex_digit_char(code % 16);
            lemma_hex_digit_char_facts(code / 16);
            lemma_hex_digit_char_facts(code % 16);
            assert(whole[0] == '\\');
            let w2 = whole.subrange(2, whole.len() as int);
            assert(w2 =~= seq!['0', '0', hi, lo] + erest + rest);
            assert(w2[0] == '0' && w2[0] != '"' && w2[0] != '\\');
            let w3 = w2.drop_first();
            assert(w3 =~= seq!['0', hi, lo] + erest + rest);
            assert(w3[0] == '0');
            let w4 = w3.drop_first();
            assert(w4 =~= seq![hi, lo] + erest + rest);
            assert(w4[0] == hi);
            let w5 = w4.drop_first();
            assert(w5 =~= seq![lo] + erest + rest);
            assert(w5[0] == lo);
            let w6 = w5.drop_first();
            assert(w6 =~= erest + rest);
            match find_close(rest) {
                Some(k) => {
                    assert(find_close(erest + rest) == Some(erest.len() + k));
                    assert(find_close(w6) == Some(erest.len() + k));
                    assert(find_close(w5) == Some(1 + erest.len() + k));
                    assert(find_close(w4) == Some(2 + erest.len() + k));
                    assert(find_close(w3) == Some(3 + erest.len() + k));
                    assert(find_close(w2) == Some(4 + erest.len() + k));
                    assert(find_close(whole) == Some(6 + erest.len() + k));
                    assert(escape_chars(d).len() == 6 + erest.len());
                },
                None => {
                    assert(find_close(erest + rest) is None);
                    assert(find_close(w6) is None);
                    assert(find_close(w5) is None);
                    assert(find_close(w4) is None);
                    assert(find_close(w3) is None);
                    assert(find_close(w2) is None);
                    assert(find_close(whole) is None);
                },
            }
        } else {
            assert(whole[0] == c);
            assert(whole[0] != '"' && whole[0] != '\\');
            assert(e0.len() == 1);
            assert(whole.drop_first() =~= erest + rest);
            match find_close(rest) {
                Some(k) => {
                    assert(find_close(erest + rest) == Some(erest.len() + k));
                    assert(find_close(whole) == Some(1 + erest.len() + k));
                    assert(escape_chars(d).len() == 1 + erest.len());
                },
                None => {
                    assert(find_close(erest + rest) is None);
                    assert(find_close(whole) is None);
                },
            }
        }
    }
}

/// Unescaping undoes escaping: the escaped form of any text reads back as
/// that text.
pub proof fn lemma_unescape_escape(d: Seq<char>)
    ensures
        unescape(escape_chars(d)) == Some(d),
    decreases d.len(),
{
    if d.len() == 0 {
    } else {
        let c = d[0];
        let e = escape_chars(d);
        let erest = escape_chars(d.drop_first());
        lemma_unescape_escape(d.drop_first());
        assert(seq![c] + d.drop_first() =~= d);
        if c == '"' || c == '\\' {
            assert(e[0] == '\\' && e[1] == c);
            assert(e.subrange(2, e.len() as int) =~= erest);
        } else if (c as u32) == 8 || (c as u32) == 9 || (c as u32) == 10 || (c as u32) == 12 || (
        c as u32) == 13 {
            assert(e[0] == '\\');
            assert(e.subrange(2, e.len() as int) =~= erest);
            let lit = if (c as u32) == 8 {
                '\u{8}'
            } else if (c as u32) == 9 {
                '\t'
            } else if (c as u32) == 10 {
                '\n'
            } else if (c as u32) == 12 {
                '\u{c}'
            } else {
                '\r'
            };
            vstd::utf8::char_u32_cast(lit, lit as u32);
            vstd::utf8::char_u32_cast(c, c as u32);
            assert(lit == c);
        } else if (c as u32) < 32 {
            let code = (c as u32) as int;
            let hi = hex_digit_char(code / 16);
            let lo = hex_digit_char(code % 16);
            lemma_hex_digit_char_facts(code / 16);
            lemma_hex_digit_char_facts(code % 16);
            assert(e[0] == '\\' && e[1] == 'u' && e[2] == '0' && e[3] == '0' && e[4] == hi && e[5]
                == lo);
            assert(e.subrange(6, e.len() as int) =~= erest);
            let rebuilt = 16 * hex_val(hi) + hex_val(lo);
            assert(rebuilt == code);
            let rc = (rebuilt as u8) as char;
            assert(rc as u32 == c as u32);
            vstd::utf8::char_u32_cast(rc, rc as u32);
            vstd::utf8::char_u32_cast(c, c as u32);
            assert(rc == c);
        } else {
            assert(e[0] == c);
            assert(e.drop_first() =~= erest);
        }
    }
}

/// Round trip: a record serialized by `encode_config` parses back to the
/// same sync directory, whatever characters it holds.
pub proof fn lemma_config_roundtrip(d: Seq<char>)
    ensures
        parse_config_chars(config_json(d)) == Some(d),
{
    reveal_strlit("\"}");
    let s = config_json(d);
    let p = json_prefix();
    let e = escape_chars(d);
    assert(s.subrange(0, p.len() as int) =~= p);
    let t = s.subrange(p.len() as int, s.len() as int);
    assert(t =~= e + json_suffix());
    assert(json_suffix()[0] == '"');
    assert(find_close(json_suffix()) == Some(0int));
    lemma_find_close_escaped(d, json_suffix());
    assert(find_close(t) == Some(e.len() as int));
    assert(t.subrange(e.len() as int, t.len() as int) =~= json_suffix());
    assert(t.subrange(0, e.len() as int) =~= e);
    lemma_unescape_escape(d);
}

} // verus!
