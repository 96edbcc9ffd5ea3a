//! The module registry's own logic: content addressing of compiled modules,
//! module-id checks, and the table of instances parked until their first step.
use vstd::prelude::*;
use vstd::string::StringSliceAdditionalSpecFns;
use sha2::Digest;
use base64::Engine;

verus! {

/// The SHA-256 digest of `data`.
pub uninterp spec fn sha256_of(data: Seq<u8>) -> Seq<u8>;

/// What standard-alphabet, padded base64 decoding makes of `input`, if valid.
pub uninterp spec fn base64_decoded(input: Seq<u8>) -> Option<Seq<u8>>;

/// Whether serde_json accepts `bytes` as one JSON value (well-formed, within
/// its nesting limit, numbers in range).
pub uninterp spec fn json_valid(bytes: Seq<u8>) -> bool;

#[verifier::external_type_specification]
#[verifier::external_body]
pub struct ExDecodeError(base64::DecodeError);

pub open spec fn hex_digit(n: int) -> char {
    seq!['0', '1', '2', '3', '4', '5', '6', '7', '8', '9', 'a', 'b', 'c', 'd', 'e', 'f'][n]
}

/// Two lowercase hex digits per byte, high nibble first.
pub open spec fn hex_lower(b: Seq<u8>) -> Seq<char>
    decreases b.len(),
{
    if b.len() == 0 {
        seq![]
    } else {
        hex_lower(b.drop_last()) + seq![hex_digit(b.last() as int / 16), hex_digit(b.last() as int % 16)]
    }
}

/// The id of the module compiled from `wasm` with metadata `meta`.
pub open spec fn module_id_spec(meta: Seq<u8>, wasm: Seq<u8>) -> Seq<char> {
    hex_lower(sha256_of(meta + wasm))
}

proof fn lemma_hex_len(b: Seq<u8>)
    ensures
        hex_lower(b).len() == 2 * b.len(),
    decreases b.len(),
{
    if b.len() > 0 {
        lemma_hex_len(b.drop_last());
    }
}

/// Relies on sha2's `Sha256`: feeding `a` then `b` digests their
/// concatenation, into 32 bytes.
#[verifier::external_body]
fn sha256_two(a: &[u8], b: &[u8]) -> (r: Vec<u8>)
    ensures
        r@ == sha256_of(a@ + b@),
        r@.len() == 32,
{
    let mut hasher = sha2::Sha256::new();
    hasher.update(a);
    hasher.update(b);
    hasher.finalize().to_vec()
}

/// Relies on `hex::encode`: two lowercase digits per byte, high nibble first.
#[verifier::external_body]
fn hex_encode(b: &[u8]) -> (r: String)
    ensures
        r@ == hex_lower(b@),
{
    hex::encode(b)
}

/// Relies on base64's `general_purpose::STANDARD` engine's `decode`.
#[verifier::external_body]
fn decode_base64(input: &[u8]) -> (r: Result<Vec<u8>, base64::DecodeError>)
    ensures
        r is Ok <==> base64_decoded(input@) is Some,
        r matches Ok(v) ==> base64_decoded(input@) == Some(v@),
{
    base64::engine::general_purpose::STANDARD.decode(input)
}

/// Relies on `serde_json::from_slice` into a `serde_json::Value`.
#[verifier::external_body]
fn parses_as_json(bytes: &[u8]) -> (r: bool)
    ensures
        r == json_valid(bytes@),
{
    match serde_json::from_slice::<serde_json::Value>(bytes) {
        Ok(_) => true,
        Err(_) => false,
    }
}

/// The content address of a module: the lowercase hex SHA-256 of the
/// metadata bytes followed by the module bytes.
pub fn module_id(meta: &[u8], wasm: &[u8]) -> (r: String)
    ensures
        r@ == module_id_spec(meta@, wasm@),
        r@.len() == 64,
{
    let digest = sha256_two(meta, wasm);
    proof {
        lemma_hex_len(digest@);
    }
    hex_encode(digest.as_slice())
}

/// Equal metadata and module bytes give equal module ids, and the id is 64
/// characters long.
pub proof fn content_addressing(meta1: Seq<u8>, wasm1: Seq<u8>, meta2: Seq<u8>, wasm2: Seq<u8>)
    requires
        meta1 == meta2,
        wasm1 == wasm2,
    ensures
        module_id_spec(meta1, wasm1) == module_id_spec(meta2, wasm2),
        sha256_of(meta1 + wasm1).len() == 32 ==> module_id_spec(meta1, wasm1).len() == 64,
{
    lemma_hex_len(sha256_of(meta1 + wasm1));
}

/// Registry errors; none of them changes any state.
#[derive(Clone, Copy, Debug, PartialEq, Eq, Structural)]
pub enum RegistryError {
    /// The module bytes are not valid base64.
    InvalidBase64,
    /// The metadata is not valid JSON.
    InvalidMeta,
    /// A module id with a character that is not a hex digit.
    InvalidModuleId,
}

/// The id under which `wasm` with metadata `meta` is stored, once the
/// metadata is checked to be JSON.
pub fn check_module(wasm: &[u8], meta: &[u8]) -> (r: Result<String, RegistryError>)
    ensures
        r matches Err(e) ==> e == RegistryError::InvalidMeta,
        r is Err <==> !json_valid(meta@),
        r matches Ok(id) ==> id@ == module_id_spec(meta@, wasm@) && id@.len() == 64,
{
    if !parses_as_json(meta) {
        return Err(RegistryError::InvalidMeta);
    }
    Ok(module_id(meta, wasm))
}

/// Decodes the base64 module `binary` and computes its id with `meta`.
pub fn decode_module(binary: &[u8], meta: &[u8]) -> (r: Result<(Vec<u8>, String), RegistryError>)
    ensures
        base64_decoded(binary@) is None ==> r == Err::<(Vec<u8>, String), _>(RegistryError::InvalidBase64),
        base64_decoded(binary@) matches Some(w) ==> (if json_valid(meta@) {
            r matches Ok((v, id)) && v@ == w && id@ == module_id_spec(meta@, w) && id@.len() == 64
        } else {
            r == Err::<(Vec<u8>, String), _>(RegistryError::InvalidMeta)
        }),
{
    let wasm = match decode_base64(binary) {
        Ok(v) => v,
        Err(_) => {
            return Err(RegistryError::InvalidBase64);
        },
    };
    match check_module(wasm.as_slice(), meta) {
        Ok(id) => Ok((wasm, id)),
        Err(e) => Err(e),
    }
}

pub open spec fn is_hex_byte(b: u8) -> bool {
    (48 <= b <= 57) || (97 <= b <= 102) || (65 <= b <= 70)
}

/// Whether every character of `s` is a hex digit (either case).
pub fn is_hex_string(s: &str) -> (r: bool)
    ensures
        r == forall|i: int| 0 <= i < s.spec_bytes().len() ==> is_hex_byte(#[trigger] s.spec_bytes()[i]),
{
    let b = s.as_bytes();
    let mut i: usize = 0;
    while i < b.len()
        invariant
            b@ == s.spec_bytes(),
            0 <= i <= b@.len(),
            forall|k: int| 0 <= k < i ==> is_hex_byte(#[trigger] b@[k]),
        decreases b@.len() - i,
    {
        let c = b[i];
        if !((48 <= c && c <= 57) || (97 <= c && c <= 102) || (65 <= c && c <= 70)) {
            return false;
        }
        i = i + 1;
    }
    true
}

/// Checks a module id given by a client before it is used as a file name.
pub fn check_module_id(module_id: &str) -> (r: Result<(), RegistryError>)
    ensures
        r is Ok <==> forall|i: int|
            0 <= i < module_id.spec_bytes().len() ==> is_hex_byte(#[trigger] module_id.spec_bytes()[i]),
        r matches Err(e) ==> e == RegistryError::InvalidModuleId,
{
    if is_hex_string(module_id) {
        Ok(())
    } else {
        Err(RegistryError::InvalidModuleId)
    }
}

/// What `mk_module` does about the compiled-module cache.
pub enum CachePlan {
    /// `{id}.bin` is there: reuse it, report its size and no compile time.
    Reuse { compiled_size: usize },
    /// Compile the module and write the three cache files.
    Compile,
}

pub fn plan_cache(cached_size: Option<usize>) -> (r: CachePlan)
    ensures
        cached_size matches Some(n) ==> r matches CachePlan::Reuse { compiled_size } && compiled_size == n,
        cached_size is None ==> r is Compile,
{
    match cached_size {
        Some(n) => CachePlan::Reuse { compiled_size: n },
        None => CachePlan::Compile,
    }
}

/// Instances created by `instantiate`, parked under their request id until
/// the first step that names it takes them.
pub struct PendingTable<T> {
    entries: Vec<(String, T)>,
}

impl<T> PendingTable<T> {
    pub closed spec fn keys(self) -> Seq<Seq<char>> {
        self.entries@.map_values(|e: (String, T)| e.0@)
    }

    /// No request id is held twice.
    pub closed spec fn wf(self) -> bool {
        forall|i: int, j: int| 0 <= i < j < self.keys().len() ==> self.keys()[i] != self.keys()[j]
    }

    closed spec fn slot_of(self, k: Seq<char>) -> int {
        choose|i: int| 0 <= i < self.keys().len() && self.keys()[i] == k
    }

    /// The parked instances by request id.
    pub closed spec fn view(self) -> Map<Seq<char>, T> {
        Map::new(|k: Seq<char>| self.keys().contains(k), |k: Seq<char>| self.entries@[self.slot_of(k)].1)
    }

    proof fn lemma_slot(self, k: Seq<char>, i: int)
        requires
            self.wf(),
            0 <= i < self.keys().len(),
            self.keys()[i] == k,
        ensures
            self.slot_of(k) == i,
            self.view().contains_key(k),
            self.view()[k] == self.entries@[i].1,
    {
        assert(self.keys().contains(k));
        let j = self.slot_of(k);
        assert(0 <= j < self.keys().len() && self.keys()[j] == k);
    }

    pub fn new() -> (r: Self)
        ensures
            r.wf(),
            r.view() == Map::<Seq<char>, T>::empty(),
    {
        let r = PendingTable { entries: Vec::new() };
        assert(r.view() =~= Map::<Seq<char>, T>::empty());
        r
    }

    fn find(&self, req_id: &String) -> (r: Option<usize>)
        requires
            self.wf(),
        ensures
            r matches Some(i) ==> i < self.keys().len() && self.keys()[i as int] == req_id@,
            r is None <==> !self.view().contains_key(req_id@),
    {
        let mut i: usize = 0;
        while i < self.entries.len()
            invariant
                self.wf(),
                0 <= i <= self.keys().len(),
                forall|k: int| 0 <= k < i ==> self.keys()[k] != req_id@,
            decreases self.keys().len() - i,
        {
            if self.entries[i].0 == *req_id {
                assert(self.keys()[i as int] == self.entries@[i as int].0@);
                return Some(i);
            }
            i = i + 1;
        }
        proof {
            if self.keys().contains(req_id@) {
                let j = choose|j: int| 0 <= j < self.keys().len() && self.keys()[j] == req_id@;
            }
        }
        None
    }

    /// Whether an instance is parked under `req_id`.
    pub fn contains(&self, req_id: &String) -> (r: bool)
        requires
            self.wf(),
        ensures
            r == self.view().contains_key(req_id@),
    {
        self.find(req_id).is_some()
    }

    /// The number of parked instances.
    pub fn len(&self) -> (r: usize)
        requires
            self.wf(),
        ensures
            r == self.view().dom().len(),
    {
        proof {
            self.lemma_len();
        }
        self.entries.len()
    }

    proof fn lemma_len(self)
        requires
            self.wf(),
        ensures
            self.view().dom() == self.keys().to_set(),
            self.view().dom().len() == self.entries@.len(),
    {
        assert(self.view().dom() =~= self.keys().to_set());
        assert(self.keys().no_duplicates());
        self.keys().unique_seq_to_set();
    }

    /// Parks `inst` under `req_id`, replacing any instance parked there.
    pub fn park(&mut self, req_id: String, inst: T)
        requires
            old(self).wf(),
        ensures
            final(self).wf(),
            final(self).view() == old(self).view().insert(req_id@, inst),
    {
        let ghost k = req_id@;
        let ghost o = *old(self);
        match self.find(&req_id) {
            Some(i) => {
                self.entries.set(i, (req_id, inst));
                proof {
                    let n = *self;
                    assert(n.keys() =~= o.keys());
                    n.lemma_slot(k, i as int);
                    assert forall|key: Seq<char>| key != k && #[trigger] n.view().contains_key(key) implies n.view()[key]
                        == o.view()[key] by {
                        let j = n.slot_of(key);
                        n.lemma_slot(key, j);
                        o.lemma_slot(key, j);
                    }
                    assert(n.view() =~= o.view().insert(k, inst));
                }
            },
            None => {
                self.entries.push((req_id, inst));
                proof {
                    let n = *self;
                    assert(n.keys() =~= o.keys().push(k));
                    assert(!o.keys().contains(k));
                    assert forall|i: int, j: int| 0 <= i < j < n.keys().len() implies n.keys()[i] != n.keys()[j] by {
                        if j == o.keys().len() {
                            assert(o.keys()[i] == n.keys()[i]);
                        }
                    }
                    n.lemma_slot(k, o.keys().len() as int);
                    assert forall|key: Seq<char>| #[trigger] n.view().contains_key(key) <==> (o.view().contains_key(key) || key == k) by {
                        if o.keys().contains(key) {
                            let j = choose|j: int| 0 <= j < o.keys().len() && o.keys()[j] == key;
                            assert(n.keys()[j] == key);
                        }
                        if n.keys().contains(key) && key != k {
                            let j = choose|j: int| 0 <= j < n.keys().len() && n.keys()[j] == key;
                            assert(o.keys()[j] == key);
                        }
                    }
                    assert forall|key: Seq<char>| key != k && #[trigger] n.view().contains_key(key) implies n.view()[key]
                        == o.view()[key] by {
                        let j = n.slot_of(key);
                        n.lemma_slot(key, j);
                        o.lemma_slot(key, j);
                    }
                    assert(n.view() =~= o.view().insert(k, inst));
                }
            },
        }
    }

    /// Takes the instance parked under `req_id`, if any; every other entry
    /// stays as it was.
    pub fn take(&mut self, req_id: &String) -> (r: Option<T>)
        requires
            old(self).wf(),
        ensures
            final(self).wf(),
            r == (if old(self).view().contains_key(req_id@) {
                Some(old(self).view()[req_id@])
            } else {
                None
            }),
            final(self).view() == old(self).view().remove(req_id@),
    {
        let ghost k = req_id@;
        let ghost o = *old(self);
        match self.find(req_id) {
            Some(i) => {
                let (_, inst) = self.entries.remove(i);
                proof {
                    let n = *self;
                    o.lemma_slot(k, i as int);
                    assert(n.keys() =~= o.keys().remove(i as int));
                    assert forall|a: int, b: int| 0 <= a < b < n.keys().len() implies n.keys()[a] != n.keys()[b] by {
                        let a2 = if a < i { a } else { a + 1 };
                        let b2 = if b < i { b } else { b + 1 };
                        assert(n.keys()[a] == o.keys()[a2] && n.keys()[b] == o.keys()[b2]);
                    }
                    assert forall|key: Seq<char>| #[trigger] n.view().contains_key(key) <==> (o.view().contains_key(key) && key != k) by {
                        if n.keys().contains(key) {
                            let j = choose|j: int| 0 <= j < n.keys().len() && n.keys()[j] == key;
                            let j2 = if j < i { j } else { j + 1 };
                            assert(o.keys()[j2] == key);
                            assert(j2 != i);
                        }
                        if o.keys().contains(key) && key != k {
                            let j = choose|j: int| 0 <= j < o.keys().len() && o.keys()[j] == key;
                            assert(j != i);
                            let j2 = if j < i { j } else { j - 1 };
                            assert(n.keys()[j2] == key);
                        }
                    }
                    assert forall|key: Seq<char>| #[trigger] n.view().contains_key(key) implies n.view()[key] == o.view()[key] by {
                        let j = n.slot_of(key);
                        n.lemma_slot(key, j);
                        let j2 = if j < i { j } else { j + 1 };
                        assert(o.keys()[j2] == key);
                        o.lemma_slot(key, j2);
                    }
                    assert(n.view() =~= o.view().remove(k));
                }
                Some(inst)
            },
            None => {
                assert(self.view() =~= o.view().remove(k));
                None
            },
        }
    }
}

/// Why a prompt given as a JSON array cannot be used.
#[derive(Clone, Copy, Debug, PartialEq, Eq, Structural)]
pub enum PromptError {
    /// Element `index` is not a non-negative integer.
    NotANumber { index: usize },
    /// Element `index` does not fit in a token id.
    TooLarge { index: usize },
}

/// The tokens of a prompt given as a JSON array: each element is a
/// non-negative integer (`Some`) or something else (`None`), and must fit in
/// a token id. The first bad element decides the error.
pub fn prompt_tokens(values: &Vec<Option<u64>>) -> (r: Result<Vec<u32>, PromptError>)
    ensures
        r matches Ok(t) ==> t@.len() == values@.len() && forall|k: int|
            0 <= k < values@.len() ==> values@[k] == Some(#[trigger] t@[k] as u64),
        r is Ok <==> forall|k: int|
            0 <= k < values@.len() ==> (#[trigger] values@[k] matches Some(v) && v <= u32::MAX),
        r matches Err(e) ==> match e {
            PromptError::NotANumber { index } => index < values@.len() && values@[index as int] is None
                && forall|k: int| 0 <= k < index ==> (#[trigger] values@[k] matches Some(v) && v <= u32::MAX),
            PromptError::TooLarge { index } => index < values@.len() && (values@[index as int] matches Some(v)
                && v > u32::MAX) && forall|k: int|
                0 <= k < index ==> (#[trigger] values@[k] matches Some(v) && v <= u32::MAX),
        },
{
    let mut out: Vec<u32> = Vec::new();
    let mut i: usize = 0;
    while i < values.len()
        invariant
            0 <= i <= values@.len(),
            out@.len() == i,
            forall|k: int| 0 <= k < i ==> values@[k] == Some(#[trigger] out@[k] as u64),
            forall|k: int| 0 <= k < i ==> (#[trigger] values@[k] matches Some(v) && v <= u32::MAX),
        decreases values@.len() - i,
    {
        match values[i] {
            None => {
                return Err(PromptError::NotANumber { index: i });
            },
            Some(v) => {
                if v > u32::MAX as u64 {
                    return Err(PromptError::TooLarge { index: i });
                }
                out.push(v as u32);
            },
        }
        i = i + 1;
    }
    Ok(out)
}

/// The pending map after parking `vs[i]` under `ks[i]`, in order.
pub open spec fn parked_all<T>(m: Map<Seq<char>, T>, ks: Seq<Seq<char>>, vs: Seq<T>) -> Map<Seq<char>, T>
    decreases ks.len(),
{
    if ks.len() == 0 || vs.len() < ks.len() {
        m
    } else {
        parked_all(m, ks.drop_last(), vs.subrange(0, vs.len() - 1)).insert(ks.last(), vs[ks.len() - 1])
    }
}

/// Instantiation isolation: however many `instantiate` requests with
/// distinct request ids are parked (the table's lock puts them in some
/// order), each is then parked under its own id with its own instance, and
/// every other parked instance is as it was.
pub proof fn instantiations_all_parked<T>(m: Map<Seq<char>, T>, ks: Seq<Seq<char>>, vs: Seq<T>)
    requires
        ks.len() == vs.len(),
        forall|i: int, j: int| 0 <= i < j < ks.len() ==> ks[i] != ks[j],
    ensures
        forall|i: int| 0 <= i < ks.len() ==> #[trigger] parked_all(m, ks, vs).contains_key(ks[i])
            && parked_all(m, ks, vs)[ks[i]] == vs[i],
        forall|k: Seq<char>| !ks.contains(k) ==> (#[trigger] parked_all(m, ks, vs).contains_key(k)
            == m.contains_key(k)) && (m.contains_key(k) ==> parked_all(m, ks, vs)[k] == m[k]),
    decreases ks.len(),
{
    if ks.len() > 0 {
        let ks2 = ks.drop_last();
        let vs2 = vs.subrange(0, vs.len() - 1);
        instantiations_all_parked(m, ks2, vs2);
        let last = ks.len() - 1;
        assert forall|i: int| 0 <= i < ks.len() implies #[trigger] parked_all(m, ks, vs).contains_key(ks[i])
            && parked_all(m, ks, vs)[ks[i]] == vs[i] by {
            let p2 = parked_all(m, ks2, vs2);
            assert(parked_all(m, ks, vs) == p2.insert(ks[last], vs[last]));
            if i < last {
                assert(ks2[i] == ks[i]);
                assert(vs2[i] == vs[i]);
                assert(p2.contains_key(ks2[i]) && p2[ks2[i]] == vs2[i]);
                assert(ks[i] != ks[last]);
            }
        }
        assert forall|k: Seq<char>| !ks.contains(k) implies (#[trigger] parked_all(m, ks, vs).contains_key(k)
            == m.contains_key(k)) && (m.contains_key(k) ==> parked_all(m, ks, vs)[k] == m[k]) by {
            let p2 = parked_all(m, ks2, vs2);
            assert(parked_all(m, ks, vs) == p2.insert(ks[last], vs[last]));
            if k == ks[last] {
                assert(ks.contains(k));
            }
            if ks2.contains(k) {
                let j = choose|j: int| 0 <= j < ks2.len() && ks2[j] == k;
                assert(ks[j] == k);
                assert(ks.contains(k));
            }
            assert(p2.contains_key(k) == m.contains_key(k));
        }
    }
}

} // verus!
