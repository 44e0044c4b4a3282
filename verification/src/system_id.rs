use vstd::prelude::*;
use vstd::utf8::encode_utf8;

verus! {

/// What a blake3 accumulator has been fed since it was last reset: the
/// concatenation of the byte slices passed to `update`.
pub uninterp spec fn fed(h: blake3::Hasher) -> Seq<u8>;

/// The blake3 digest of a byte sequence, rendered as 64 lowercase
/// hexadecimal characters. The digest is a pure function of the input
/// bytes, identical across processes and machines.
pub uninterp spec fn blake3_hex(bytes: Seq<u8>) -> Seq<char>;

/// blake3::Hasher, the reusable hashing accumulator, held opaque.
#[verifier::external_type_specification]
#[verifier::external_body]
pub struct ExHasher(blake3::Hasher);

/// sysinfo::System, the live machine-metrics handle, held opaque.
#[verifier::external_type_specification]
#[verifier::external_body]
pub struct ExSystem(sysinfo::System);

/// Relies on blake3::Hasher::new: a fresh accumulator has been fed nothing.
#[verifier::external_body]
fn hasher_new() -> (h: blake3::Hasher)
    ensures
        fed(h) == Seq::<u8>::empty(),
{
    blake3::Hasher::new()
}

/// Relies on blake3::Hasher::reset: restores the initial state, the same as
/// overwriting the accumulator with a new one.
#[verifier::external_body]
fn hasher_reset(h: &mut blake3::Hasher)
    ensures
        fed(*final(h)) == Seq::<u8>::empty(),
{
    h.reset();
}

/// Relies on blake3::Hasher::update: appends the input bytes to what the
/// accumulator has been fed.
#[verifier::external_body]
fn hasher_update(h: &mut blake3::Hasher, input: &[u8])
    ensures
        fed(*final(h)) == fed(*old(h)) + input@,
{
    h.update(input);
}

/// Relies on blake3::Hasher::finalize and blake3::Hash's Display, which
/// renders the 32-byte digest of the fed bytes as 64 lowercase hexadecimal
/// characters; the digest depends on the fed bytes alone.
#[verifier::external_body]
fn hasher_finalize_hex(h: &blake3::Hasher) -> (r: String)
    ensures
        r@ == blake3_hex(fed(*h)),
        r@.len() == 64,
        forall|i: int| 0 <= i < r@.len() ==> is_lower_hex_digit(#[trigger] r@[i]),
{
    h.finalize().to_string()
}

/// Relies on sysinfo::System::new: a system handle with nothing refreshed.
#[verifier::external_body]
fn system_new() -> sysinfo::System {
    sysinfo::System::new()
}

/// Relies on sysinfo::System::refresh_memory: re-reads live memory metrics.
#[verifier::external_body]
fn system_refresh_memory(sys: &mut sysinfo::System) {
    sys.refresh_memory();
}

/// Relies on sysinfo::System::name: the OS name, or None when unavailable.
#[verifier::external_body]
fn system_os_name() -> Option<String> {
    sysinfo::System::name()
}

/// Relies on sysinfo::System::host_name: the host name, or None when
/// unavailable.
#[verifier::external_body]
fn system_host_name() -> Option<String> {
    sysinfo::System::host_name()
}

/// Relies on sysinfo::System::total_memory: total RAM in bytes as last
/// refreshed.
#[verifier::external_body]
fn system_total_memory(sys: &sysinfo::System) -> u64 {
    sys.total_memory()
}

/// Relies on sysinfo::System::physical_core_count: the physical core count,
/// or None when it cannot be determined.
#[verifier::external_body]
fn system_physical_core_count() -> Option<usize> {
    sysinfo::System::physical_core_count()
}

pub open spec fn is_lower_hex_digit(c: char) -> bool {
    (48 <= c as u32 && c as u32 <= 57) || (97 <= c as u32 && c as u32 <= 102)
}

/// The exact byte sequence a descriptor feeds to the hasher: the UTF-8 bytes
/// of each field, in field order, with no separators.
pub open spec fn descriptor_bytes(fields: Seq<Seq<char>>) -> Seq<u8>
    decreases fields.len(),
{
    if fields.len() == 0 {
        Seq::<u8>::empty()
    } else {
        encode_utf8(fields[0]) + descriptor_bytes(fields.drop_first())
    }
}

proof fn lemma_descriptor_bytes_snoc(fields: Seq<Seq<char>>, last: Seq<char>)
    ensures
        descriptor_bytes(fields.push(last)) == descriptor_bytes(fields) + encode_utf8(last),
    decreases fields.len(),
{
    if fields.len() == 0 {
        assert(fields.push(last)[0] == last);
        assert(fields.push(last).drop_first() =~= Seq::<Seq<char>>::empty());
        assert(descriptor_bytes(fields.push(last).drop_first()) == Seq::<u8>::empty());
        assert(descriptor_bytes(fields) == Seq::<u8>::empty());
        assert(descriptor_bytes(fields.push(last)) =~= descriptor_bytes(fields) + encode_utf8(
            last,
        ));
    } else {
        assert(fields.push(last).drop_first() =~= fields.drop_first().push(last));
        lemma_descriptor_bytes_snoc(fields.drop_first(), last);
        assert(descriptor_bytes(fields.push(last)) =~= descriptor_bytes(fields) + encode_utf8(
            last,
        ));
    }
}

/// A source of machine-descriptive strings for the hashing pipeline. The
/// descriptor it yields has exactly five fields, the caller-supplied salt
/// first, then OS name, host name, total memory and physical core count,
/// each as text. Alternate sources (synthetic values for tests, say) may
/// implement this instead of reading live metrics.
pub trait IdHashInput {
    /// The salt this source was built with.
    spec fn salt_model(&self) -> Seq<char>;

    /// Collects the descriptor fields, refreshing live metrics first.
    fn get_info(&mut self) -> (r: Vec<String>)
        ensures
            r@.len() == 5,
            r@[0]@ == old(self).salt_model(),
            final(self).salt_model() == old(self).salt_model(),
    ;
}

/// The live identity source: a system handle plus a caller-supplied salt.
pub struct SystemAndSalt {
    system: sysinfo::System,
    salt: String,
}

impl SystemAndSalt {
    pub fn new(system: sysinfo::System, salt: String) -> (r: Self)
        ensures
            r.salt_model() == salt@,
    {
        Self { system, salt }
    }
}

impl IdHashInput for SystemAndSalt {
    closed spec fn salt_model(&self) -> Seq<char> {
        self.salt@
    }

    /// Refreshes memory metrics, then yields the five descriptor fields in
    /// the fixed order: salt, OS name, host name, total memory in bytes as
    /// decimal text, physical core count as decimal text. A field the
    /// platform cannot report degrades to the empty string or to zero.
    fn get_info(&mut self) -> (r: Vec<String>) {
        system_refresh_memory(&mut self.system);
        let sys_name = match system_os_name() {
            Some(n) => n,
            None => String::new(),
        };
        let sys_host_name = match system_host_name() {
            Some(n) => n,
            None => String::new(),
        };
        let sys_total_memory = crate::u64_to_decimal(system_total_memory(&self.system));
        let core_count: usize = match system_physical_core_count() {
            Some(c) => c,
            None => 0,
        };
        let sys_core_count = crate::u64_to_decimal(core_count as u64);
        let mut r: Vec<String> = Vec::new();
        r.push(self.salt.clone());
        r.push(sys_name);
        r.push(sys_host_name);
        r.push(sys_total_memory);
        r.push(sys_core_count);
        r
    }
}

/// A stable, opaque machine identifier: a fixed-length lowercase
/// hexadecimal digest, safe to use in a file name.
#[derive(Debug)]
pub struct SystemId {
    pub id: String,
}

impl SystemId {
    /// 64 lowercase hexadecimal characters: no path separators, no
    /// whitespace.
    pub open spec fn wf(&self) -> bool {
        &&& self.id@.len() == 64
        &&& forall|i: int| 0 <= i < self.id@.len() ==> is_lower_hex_digit(#[trigger] self.id@[i])
    }

    /// What a derivation returns for a descriptor: the well-formed id whose
    /// text is the digest of the descriptor's bytes. Nothing else, notably
    /// no earlier accumulator state, enters into it.
    pub open spec fn derived_from(fields: Seq<Seq<char>>, r: SystemId) -> bool {
        &&& r.wf()
        &&& r.id@ == blake3_hex(descriptor_bytes(fields))
    }

    /// Derives the id for an explicit list of descriptor fields. The
    /// accumulator is reset first, so the result is a function of the
    /// fields alone: nothing fed to the accumulator before this call can
    /// leak into the digest.
    pub fn new_from_fields(fields: &Vec<String>, hasher: &mut blake3::Hasher) -> (r: SystemId)
        ensures
            Self::derived_from(fields.deep_view(), r),
            r.wf(),
            r.id@ == blake3_hex(descriptor_bytes(fields.deep_view())),
            fed(*final(hasher)) == descriptor_bytes(fields.deep_view()),
    {
        hasher_reset(hasher);
        let ghost all = fields.deep_view();
        let mut i: usize = 0;
        while i < fields.len()
            invariant
                0 <= i <= fields.len(),
                all == fields.deep_view(),
                all.len() == fields.len(),
                fed(*hasher) == descriptor_bytes(all.subrange(0, i as int)),
            decreases fields.len() - i,
        {
            proof {
                assert(all.subrange(0, i as int).push(all[i as int]) =~= all.subrange(
                    0,
                    i as int + 1,
                ));
                lemma_descriptor_bytes_snoc(all.subrange(0, i as int), all[i as int]);
            }
            hasher_update(hasher, fields[i].as_str().as_bytes());
            i = i + 1;
        }
        proof {
            assert(all.subrange(0, all.len() as int) =~= all);
        }
        SystemId { id: hasher_finalize_hex(hasher) }
    }

    /// Collects a descriptor from the given source and derives its id. The
    /// accumulator is reset before use, so repeated derivations with one
    /// accumulator cannot contaminate each other. The id is the digest of a
    /// five-field descriptor that begins with the source's salt.
    pub fn new_by_hashing<I: IdHashInput>(id_info: &mut I, hasher: &mut blake3::Hasher) -> (r:
        SystemId)
        ensures
            r.wf(),
            exists|rest: Seq<Seq<char>>|
                rest.len() == 4 && r.id@ == blake3_hex(
                    descriptor_bytes(seq![old(id_info).salt_model()] + rest),
                ),
            final(id_info).salt_model() == old(id_info).salt_model(),
    {
        let info = id_info.get_info();
        let r = SystemId::new_from_fields(&info, hasher);
        proof {
            let all = info.deep_view();
            let rest = all.subrange(1, 5);
            assert(all =~= seq![old(id_info).salt_model()] + rest);
        }
        r
    }
}

/// Derives this machine's id from live metrics and the given salt: the
/// whole identity pipeline for one run, a fresh accumulator each time.
pub fn get_system_id(salt: String) -> (r: SystemId)
    ensures
        r.wf(),
        exists|rest: Seq<Seq<char>>|
            rest.len() == 4 && r.id@ == blake3_hex(descriptor_bytes(seq![salt@] + rest)),
{
    let system = system_new();
    let mut system_and_salt = SystemAndSalt::new(system, salt);
    let mut hasher = hasher_new();
    SystemId::new_by_hashing(&mut system_and_salt, &mut hasher)
}

impl PartialEq for SystemId {
    fn eq(&self, other: &SystemId) -> (r: bool) {
        self.id.eq(&other.id)
    }
}

impl vstd::std_specs::cmp::PartialEqSpecImpl for SystemId {
    open spec fn obeys_eq_spec() -> bool {
        true
    }

    open spec fn eq_spec(&self, other: &SystemId) -> bool {
        self.id@ == other.id@
    }
}

/// Determinism and resettability: two derivations that see equal descriptor
/// fields return equal ids, in whatever runs, and whatever either
/// accumulator was fed before or between them.
pub proof fn lemma_derivations_agree(
    fields1: Seq<Seq<char>>,
    r1: SystemId,
    fields2: Seq<Seq<char>>,
    r2: SystemId,
)
    requires
        SystemId::derived_from(fields1, r1),
        SystemId::derived_from(fields2, r2),
        fields1 =~~= fields2,
    ensures
        r1.id@ == r2.id@,
{
    assert(fields1 == fields2);
}

} // verus!
