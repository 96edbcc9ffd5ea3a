//! Hash-consed store of regular expressions over a byte alphabet.
use vstd::prelude::*;

verus! {

/// A reference to an expression held by an [`ExprSet`]; `0` is never a valid id.
#[derive(Clone, Copy, Debug, PartialEq, Eq, Structural, Hash, PartialOrd, Ord)]
pub struct ExprRef(u32);

impl ExprRef {
    /// Ids of the expressions that every set holds from its creation.
    pub const INVALID_ID: u32 = 0;
    pub const EMPTY_STRING_ID: u32 = 1;
    pub const NO_MATCH_ID: u32 = 2;
    pub const ANY_BYTE_ID: u32 = 3;
    pub const ANY_STRING_ID: u32 = 4;
    pub const NON_EMPTY_STRING_ID: u32 = 5;

    pub closed spec fn id(self) -> u32 {
        self.0
    }

    pub fn new(id: u32) -> (r: Self)
        requires
            id != 0,
        ensures
            r.id() == id,
    {
        ExprRef(id)
    }

    pub fn is_valid(&self) -> (r: bool)
        ensures
            r == (self.id() != 0),
    {
        self.0 != 0
    }

    pub fn as_usize(&self) -> (r: usize)
        ensures
            r == self.id(),
    {
        self.0 as usize
    }

    pub fn as_u32(&self) -> (r: u32)
        ensures
            r == self.id(),
    {
        self.0
    }
}

/// Whether bit `b` is set in the bit set `s` (bit `b % 32` of word `b / 32`).
pub open spec fn byteset_has(s: Seq<u32>, b: int) -> bool {
    s[b / 32] & (1u32 << ((b % 32) as u32)) != 0
}

pub fn byteset_contains(s: &[u32], b: usize) -> (r: bool)
    requires
        b / 32 < s@.len(),
    ensures
        r == byteset_has(s@, b as int),
{
    s[b / 32] & (1u32 << ((b % 32) as u32)) != 0
}

proof fn lemma_or_bit(x: u32, y: u32, k: u32)
    requires
        k < 32,
    ensures
        ((x | y) & (1u32 << k) != 0) == ((x & (1u32 << k) != 0) || (y & (1u32 << k) != 0)),
{
    assert(((x | y) & (1u32 << k) != 0) == ((x & (1u32 << k) != 0) || (y & (1u32 << k) != 0)))
        by (bit_vector)
        requires
            k < 32,
    ;
}

proof fn lemma_single_bit(j: u32, k: u32)
    requires
        j < 32,
        k < 32,
    ensures
        ((1u32 << j) & (1u32 << k) != 0) == (j == k),
{
    assert(((1u32 << j) & (1u32 << k) != 0) == (j == k)) by (bit_vector)
        requires
            j < 32,
            k < 32,
    ;
}

proof fn lemma_zero_word(k: u32)
    requires
        k < 32,
    ensures
        0u32 & (1u32 << k) == 0,
{
    assert(0u32 & (1u32 << k) == 0) by (bit_vector);
}

/// Sets bit `b`; every other bit keeps its value.
pub fn byteset_set(s: &mut Vec<u32>, b: usize)
    requires
        b / 32 < old(s)@.len(),
    ensures
        final(s)@.len() == old(s)@.len(),
        forall|c: int|
            0 <= c < 32 * old(s)@.len() ==> #[trigger] byteset_has(final(s)@, c) == (
            byteset_has(old(s)@, c) || c == b),
{
    let w = b / 32;
    let v = s[w] | (1u32 << ((b % 32) as u32));
    s.set(w, v);
    proof {
        assert forall|c: int| 0 <= c < 32 * old(s)@.len() implies #[trigger] byteset_has(
            final(s)@,
            c,
        ) == (byteset_has(old(s)@, c) || c == b) by {
            lemma_or_bit(old(s)@[c / 32], 1u32 << ((b % 32) as u32), (c % 32) as u32);
            lemma_single_bit((b % 32) as u32, (c % 32) as u32);
        }
    }
}

/// Adds every bit of `other` to `s`.
pub fn byteset_union(s: &mut Vec<u32>, other: &[u32])
    requires
        other@.len() >= old(s)@.len(),
    ensures
        final(s)@.len() == old(s)@.len(),
        forall|i: int| 0 <= i < old(s)@.len() ==> #[trigger] final(s)@[i] == old(s)@[i] | other@[i],
        forall|c: int|
            0 <= c < 32 * old(s)@.len() ==> #[trigger] byteset_has(final(s)@, c) == (
            byteset_has(old(s)@, c) || byteset_has(other@, c)),
{
    let n = s.len();
    for i in 0..n
        invariant
            n == old(s)@.len(),
            s@.len() == n,
            other@.len() >= n,
            forall|j: int| 0 <= j < i ==> #[trigger] s@[j] == old(s)@[j] | other@[j],
            forall|j: int| i <= j < n ==> #[trigger] s@[j] == old(s)@[j],
    {
        let v = s[i] | other[i];
        s.set(i, v);
    }
    proof {
        assert forall|c: int| 0 <= c < 32 * old(s)@.len() implies #[trigger] byteset_has(
            final(s)@,
            c,
        ) == (byteset_has(old(s)@, c) || byteset_has(other@, c)) by {
            lemma_or_bit(old(s)@[c / 32], other@[c / 32], (c % 32) as u32);
        }
    }
}

/// An empty set over the 256 byte values.
pub fn byteset_256() -> (r: Vec<u32>)
    ensures
        r@.len() == 8,
        forall|c: int| 0 <= c < 256 ==> !#[trigger] byteset_has(r@, c),
{
    let r: Vec<u32> = vec![0u32; 8];
    proof {
        assert forall|c: int| 0 <= c < 256 implies !#[trigger] byteset_has(r@, c) by {
            lemma_zero_word((c % 32) as u32);
        }
    }
    r
}

/// The set of the bytes from `start` to `end`, both included.
pub fn byteset_from_range(start: u8, end: u8) -> (r: Vec<u32>)
    requires
        start <= end,
    ensures
        r@.len() == 8,
        forall|c: int| 0 <= c < 256 ==> #[trigger] byteset_has(r@, c) == (start <= c <= end),
{
    let mut s = byteset_256();
    let mut b: u16 = start as u16;
    while b <= end as u16
        invariant
            start <= b <= end as u16 + 1,
            s@.len() == 8,
            forall|c: int| 0 <= c < 256 ==> #[trigger] byteset_has(s@, c) == (start <= c < b),
        decreases end as u16 + 1 - b,
    {
        byteset_set(&mut s, b as usize);
        b = b + 1;
    }
    s
}

/// Per-expression flags; only the nullable bit (bit 8) is used, the low byte
/// holds the tag in the stored form.
#[derive(Clone, Copy)]
pub struct ExprFlags(u32);

impl ExprFlags {
    const NULLABLE_BITS: u32 = 256;

    pub closed spec fn bits(self) -> u32 {
        self.0
    }

    #[verifier::type_invariant]
    closed spec fn inv(self) -> bool {
        self.0 == 0 || self.0 == 256
    }

    /// Whether the expression matches the empty string.
    pub closed spec fn nullable_spec(self) -> bool {
        self.0 == 256
    }

    pub fn is_nullable(&self) -> (r: bool)
        ensures
            r == self.nullable_spec(),
    {
        proof {
            use_type_invariant(self);
            let x = self.0;
            assert(x & 256u32 != 0 <==> x == 256) by (bit_vector)
                requires
                    x == 0 || x == 256,
            ;
        }
        self.0 & Self::NULLABLE_BITS != 0
    }

    fn from_nullable(nullable: bool) -> (r: Self)
        ensures
            r.nullable_spec() == nullable,
            r.bits() == (if nullable { 256u32 } else { 0u32 }),
    {
        if nullable {
            ExprFlags(Self::NULLABLE_BITS)
        } else {
            ExprFlags(0)
        }
    }

    fn encode(&self, tag: ExprTag) -> (r: u32)
        ensures
            r == self.bits() | tag.code(),
    {
        self.0 | tag.to_u32()
    }
}

/// The kind of a stored expression, kept in the low byte of its first word.
#[derive(Clone, Copy, Debug, PartialEq, Eq, Structural)]
enum ExprTag {
    EmptyString,
    NoMatch,
    Byte,
    ByteSet,
    Lookahead,
    Not,
    Repeat,
    Concat,
    Or,
    And,
}

impl ExprTag {
    spec fn code(self) -> u32 {
        match self {
            ExprTag::EmptyString => 1,
            ExprTag::NoMatch => 2,
            ExprTag::Byte => 3,
            ExprTag::ByteSet => 4,
            ExprTag::Lookahead => 5,
            ExprTag::Not => 6,
            ExprTag::Repeat => 7,
            ExprTag::Concat => 8,
            ExprTag::Or => 9,
            ExprTag::And => 10,
        }
    }

    fn to_u32(self) -> (r: u32)
        ensures
            r == self.code(),
    {
        match self {
            ExprTag::EmptyString => 1,
            ExprTag::NoMatch => 2,
            ExprTag::Byte => 3,
            ExprTag::ByteSet => 4,
            ExprTag::Lookahead => 5,
            ExprTag::Not => 6,
            ExprTag::Repeat => 7,
            ExprTag::Concat => 8,
            ExprTag::Or => 9,
            ExprTag::And => 10,
        }
    }

    fn from_u8(x: u8) -> (r: Self)
        requires
            1 <= x <= 10,
        ensures
            r.code() == x,
    {
        match x {
            1 => ExprTag::EmptyString,
            2 => ExprTag::NoMatch,
            3 => ExprTag::Byte,
            4 => ExprTag::ByteSet,
            5 => ExprTag::Lookahead,
            6 => ExprTag::Not,
            7 => ExprTag::Repeat,
            8 => ExprTag::Concat,
            9 => ExprTag::Or,
            _ => ExprTag::And,
        }
    }
}

/// Tag in the first word of a stored expression.
pub open spec fn tag_of(h: u32) -> u32 {
    h & 0xffu32
}

/// Flag bits in the first word of a stored expression.
pub open spec fn flag_bits_of(h: u32) -> u32 {
    h & !0xffu32
}

proof fn lemma_head(f: u32, t: u32)
    requires
        f == 0 || f == 256,
        1 <= t <= 10,
    ensures
        tag_of(f | t) == t,
        flag_bits_of(f | t) == f,
        f == 0 ==> f | t == t,
{
    assert(f == 0 ==> f | t == t) by (bit_vector);
    assert((f | t) & 0xffu32 == t && (f | t) & !0xffu32 == f) by (bit_vector)
        requires
            f == 0 || f == 256,
            1 <= t <= 10,
    ;
}

proof fn lemma_split_head(h: u32)
    ensures
        h == flag_bits_of(h) | tag_of(h),
        tag_of(h) <= 255,
        flag_bits_of(h) == 0 ==> h == tag_of(h),
{
    assert(h == (h & !0xffu32) | (h & 0xffu32) && h & 0xffu32 <= 255) by (bit_vector);
    assert((h & !0xffu32) == 0 ==> h == (h & 0xffu32)) by (bit_vector);
}

pub open spec fn ref_ids(es: Seq<ExprRef>) -> Seq<u32> {
    es.map_values(|r: ExprRef| r.id())
}

/// An expression node, as handed out by [`ExprSet::get`].
pub enum Expr {
    EmptyString,
    NoMatch,
    Byte(u8),
    ByteSet(Vec<u32>),
    Lookahead(ExprFlags, ExprRef, u32),
    Not(ExprFlags, ExprRef),
    Repeat(ExprFlags, ExprRef, u32, u32),
    Concat(ExprFlags, Vec<ExprRef>),
    Or(ExprFlags, Vec<ExprRef>),
    And(ExprFlags, Vec<ExprRef>),
}

impl Expr {
    /// The stored form: a head word (flags | tag) followed by the operands.
    pub open spec fn encoding(self) -> Seq<u32> {
        match self {
            Expr::EmptyString => seq![1u32],
            Expr::NoMatch => seq![2u32],
            Expr::Byte(b) => seq![3u32, b as u32],
            Expr::ByteSet(s) => seq![4u32] + s@,
            Expr::Lookahead(f, e, n) => seq![f.bits() | 5u32, e.id(), n],
            Expr::Not(f, e) => seq![f.bits() | 6u32, e.id()],
            Expr::Repeat(f, e, a, b) => seq![f.bits() | 7u32, e.id(), a, b],
            Expr::Concat(f, es) => seq![f.bits() | 8u32] + ref_ids(es@),
            Expr::Or(f, es) => seq![f.bits() | 9u32] + ref_ids(es@),
            Expr::And(f, es) => seq![f.bits() | 10u32] + ref_ids(es@),
        }
    }

    pub open spec fn flags_nullable(self) -> bool {
        match self {
            Expr::EmptyString => true,
            Expr::NoMatch | Expr::Byte(_) | Expr::ByteSet(_) => false,
            Expr::Lookahead(f, _, _) => f.nullable_spec(),
            Expr::Not(f, _) => f.nullable_spec(),
            Expr::Repeat(f, _, _, _) => f.nullable_spec(),
            Expr::Concat(f, _) => f.nullable_spec(),
            Expr::Or(f, _) => f.nullable_spec(),
            Expr::And(f, _) => f.nullable_spec(),
        }
    }

    /// Whether a byte, a byte set or one of the two constants matches `b`.
    pub open spec fn matches_byte_spec(self, b: u8) -> bool {
        match self {
            Expr::Byte(b2) => b == b2,
            Expr::ByteSet(s) => byteset_has(s@, b as int),
            _ => false,
        }
    }

    pub open spec fn is_simple(self) -> bool {
        match self {
            Expr::EmptyString | Expr::NoMatch | Expr::Byte(_) | Expr::ByteSet(_) => true,
            _ => false,
        }
    }

    pub fn matches_byte(&self, b: u8) -> (r: bool)
        requires
            self.is_simple(),
            self matches Expr::ByteSet(s) ==> (b as int) / 32 < s@.len(),
        ensures
            r == self.matches_byte_spec(b),
    {
        match self {
            Expr::EmptyString => false,
            Expr::NoMatch => false,
            Expr::Byte(b2) => b == *b2,
            Expr::ByteSet(s) => byteset_contains(s.as_slice(), b as usize),
            _ => false,
        }
    }

    fn get_flags(&self) -> (r: ExprFlags)
        ensures
            r.nullable_spec() == self.flags_nullable(),
    {
        match self {
            Expr::EmptyString => ExprFlags::from_nullable(true),
            Expr::NoMatch | Expr::Byte(_) | Expr::ByteSet(_) => ExprFlags::from_nullable(false),
            Expr::Lookahead(f, _, _) => *f,
            Expr::Not(f, _) => *f,
            Expr::Repeat(f, _, _, _) => *f,
            Expr::Concat(f, _) => *f,
            Expr::Or(f, _) => *f,
            Expr::And(f, _) => *f,
        }
    }

    pub fn nullable(&self) -> (r: bool)
        ensures
            r == self.flags_nullable(),
    {
        self.get_flags().is_nullable()
    }

    fn from_slice(s: &[u32], n: Ghost<int>, w: Ghost<int>) -> (r: Expr)
        requires
            valid_entry(s@, n@, w@),
        ensures
            r.encoding() == s@,
    {
        proof {
            lemma_split_head(s@[0]);
        }
        let flags = ExprFlags(s[0] & !0xffu32);
        let tag = ExprTag::from_u8((s[0] & 0xffu32) as u8);
        proof {
            assert(((s@[0] & 0xffu32) as u8) as u32 == s@[0] & 0xffu32);
        }
        match tag {
            ExprTag::EmptyString => Expr::EmptyString,
            ExprTag::NoMatch => Expr::NoMatch,
            ExprTag::Byte => {
                let r = Expr::Byte(s[1] as u8);
                assert(r.encoding() =~= s@);
                r
            },
            ExprTag::ByteSet => {
                let v = words_from(s, 1);
                let r = Expr::ByteSet(v);
                assert(r.encoding() =~= s@);
                r
            },
            ExprTag::Lookahead => {
                let r = Expr::Lookahead(flags, ExprRef::new(s[1]), s[2]);
                assert(r.encoding() =~= s@);
                r
            },
            ExprTag::Not => {
                let r = Expr::Not(flags, ExprRef::new(s[1]));
                assert(r.encoding() =~= s@);
                r
            },
            ExprTag::Repeat => {
                let r = Expr::Repeat(flags, ExprRef::new(s[1]), s[2], s[3]);
                assert(r.encoding() =~= s@);
                r
            },
            ExprTag::Concat => {
                let v = refs_from(s, 1);
                let r = Expr::Concat(flags, v);
                assert(r.encoding() =~= s@);
                r
            },
            ExprTag::Or => {
                let v = refs_from(s, 1);
                let r = Expr::Or(flags, v);
                assert(r.encoding() =~= s@);
                r
            },
            ExprTag::And => {
                let v = refs_from(s, 1);
                let r = Expr::And(flags, v);
                assert(r.encoding() =~= s@);
                r
            },
        }
    }

    fn serialize(&self) -> (r: Vec<u32>)
        ensures
            r@ == self.encoding(),
    {
        let mut trg: Vec<u32> = Vec::new();
        match self {
            Expr::EmptyString => trg.push(ExprTag::EmptyString.to_u32()),
            Expr::NoMatch => trg.push(ExprTag::NoMatch.to_u32()),
            Expr::Byte(b) => {
                trg.push(ExprTag::Byte.to_u32());
                trg.push(*b as u32);
            },
            Expr::ByteSet(s) => {
                trg.push(ExprTag::ByteSet.to_u32());
                push_words(&mut trg, s.as_slice());
            },
            Expr::Lookahead(flags, e, n) => {
                trg.push(flags.encode(ExprTag::Lookahead));
                trg.push(e.0);
                trg.push(*n);
            },
            Expr::Not(flags, e) => {
                trg.push(flags.encode(ExprTag::Not));
                trg.push(e.0);
            },
            Expr::Repeat(flags, e, a, b) => {
                trg.push(flags.encode(ExprTag::Repeat));
                trg.push(e.0);
                trg.push(*a);
                trg.push(*b);
            },
            Expr::Concat(flags, es) => {
                trg.push(flags.encode(ExprTag::Concat));
                push_refs(&mut trg, es.as_slice());
            },
            Expr::Or(flags, es) => {
                trg.push(flags.encode(ExprTag::Or));
                push_refs(&mut trg, es.as_slice());
            },
            Expr::And(flags, es) => {
                trg.push(flags.encode(ExprTag::And));
                push_refs(&mut trg, es.as_slice());
            },
        }
        assert(trg@ =~= self.encoding());
        trg
    }
}

fn push_words(trg: &mut Vec<u32>, s: &[u32])
    ensures
        final(trg)@ == old(trg)@ + s@,
{
    for i in 0..s.len()
        invariant
            trg@ == old(trg)@ + s@.subrange(0, i as int),
    {
        trg.push(s[i]);
        assert(s@.subrange(0, i + 1) =~= s@.subrange(0, i as int).push(s@[i as int]));
    }
    assert(s@.subrange(0, s@.len() as int) =~= s@);
}

fn push_refs(trg: &mut Vec<u32>, es: &[ExprRef])
    ensures
        final(trg)@ == old(trg)@ + ref_ids(es@),
{
    for i in 0..es.len()
        invariant
            trg@ == old(trg)@ + ref_ids(es@.subrange(0, i as int)),
    {
        trg.push(es[i].0);
        assert(ref_ids(es@.subrange(0, i + 1)) =~= ref_ids(es@.subrange(0, i as int)).push(
            es@[i as int].id(),
        ));
    }
    assert(es@.subrange(0, es@.len() as int) =~= es@);
}

fn words_from(s: &[u32], from: usize) -> (r: Vec<u32>)
    requires
        from <= s@.len(),
    ensures
        r@ == s@.subrange(from as int, s@.len() as int),
{
    let mut r: Vec<u32> = Vec::new();
    let mut i = from;
    while i < s.len()
        invariant
            from <= i <= s@.len(),
            r@ == s@.subrange(from as int, i as int),
        decreases s@.len() - i,
    {
        r.push(s[i]);
        i = i + 1;
        assert(r@ =~= s@.subrange(from as int, i as int));
    }
    r
}

fn refs_from(s: &[u32], from: usize) -> (r: Vec<ExprRef>)
    requires
        from <= s@.len(),
        forall|i: int| from <= i < s@.len() ==> #[trigger] s@[i] != 0,
    ensures
        ref_ids(r@) == s@.subrange(from as int, s@.len() as int),
{
    let mut r: Vec<ExprRef> = Vec::new();
    let mut i = from;
    while i < s.len()
        invariant
            from <= i <= s@.len(),
            forall|k: int| from <= k < s@.len() ==> #[trigger] s@[k] != 0,
            r@.len() == i - from,
            forall|k: int| 0 <= k < r@.len() ==> (#[trigger] r@[k]).id() == s@[from + k],
        decreases s@.len() - i,
    {
        r.push(ExprRef::new(s[i]));
        i = i + 1;
    }
    proof {
        lemma_ref_ids(r@, s@.subrange(from as int, s@.len() as int));
    }
    r
}

proof fn lemma_ref_ids(es: Seq<ExprRef>, ids: Seq<u32>)
    requires
        es.len() == ids.len(),
        forall|k: int| 0 <= k < es.len() ==> (#[trigger] es[k]).id() == ids[k],
    ensures
        ref_ids(es) == ids,
{
    assert(ref_ids(es) =~= ids);
}

/// Words `from..s.len()` of `s` are references to entries below `n`.
pub open spec fn refs_below(s: Seq<u32>, from: int, n: int) -> bool {
    forall|i: int| from <= i < s.len() ==> 0 < #[trigger] s[i] < n
}

/// `s` is the stored form of an expression whose operands are below `n`,
/// with byte sets of `w` words.
pub open spec fn valid_entry(s: Seq<u32>, n: int, w: int) -> bool {
    &&& s.len() >= 1
    &&& flag_bits_of(s[0]) == 0 || flag_bits_of(s[0]) == 256
    &&& {
        let t = tag_of(s[0]);
        let f = flag_bits_of(s[0]);
        ||| t == 1 && f == 0 && s.len() == 1
        ||| t == 2 && f == 0 && s.len() == 1
        ||| t == 3 && f == 0 && s.len() == 2 && s[1] < 32 * w && s[1] < 256
        ||| t == 4 && f == 0 && s.len() == 1 + w
        ||| t == 5 && s.len() == 3 && 0 < s[1] < n
        ||| t == 6 && s.len() == 2 && 0 < s[1] < n
        ||| t == 7 && s.len() == 4 && 0 < s[1] < n
        ||| 8 <= t <= 10 && refs_below(s, 1, n)
    }
}

fn same_words(a: &[u32], b: &[u32]) -> (r: bool)
    ensures
        r == (a@ == b@),
{
    if a.len() != b.len() {
        return false;
    }
    for i in 0..a.len()
        invariant
            a@.len() == b@.len(),
            forall|k: int| 0 <= k < i ==> a@[k] == b@[k],
    {
        if a[i] != b[i] {
            return false;
        }
    }
    assert(a@ =~= b@);
    true
}

/// The first word of every stored byte set that matches every byte.
pub open spec fn all_ones(s: Seq<u32>, w: int) -> bool {
    &&& s.len() == 1 + w
    &&& s[0] == 4
    &&& forall|k: int| 1 <= k < s.len() ==> #[trigger] s[k] == 0xffff_ffffu32
}

/// A set of expressions in which equal expressions share one id.
///
/// Id `i` stands for the expression stored in slot `i`; slot `0` is unused so
/// that no valid reference is `0`.
pub struct ExprSet {
    exprs: Vec<Vec<u32>>,
    alphabet_size: usize,
    alphabet_words: usize,
}

impl ExprSet {
    /// The stored form of every slot.
    pub closed spec fn entries(self) -> Seq<Seq<u32>> {
        self.exprs@.map_values(|v: Vec<u32>| v@)
    }

    pub closed spec fn alphabet(self) -> nat {
        self.alphabet_size as nat
    }

    pub closed spec fn words(self) -> nat {
        self.alphabet_words as nat
    }

    pub open spec fn valid_ref(self, id: u32) -> bool {
        0 < id < self.entries().len()
    }

    pub open spec fn entry(self, id: u32) -> Seq<u32> {
        self.entries()[id as int]
    }

    pub open spec fn tag(self, id: u32) -> u32 {
        tag_of(self.entry(id)[0])
    }

    /// Whether expression `id` matches the empty string.
    pub open spec fn nullable(self, id: u32) -> bool {
        id == ExprRef::EMPTY_STRING_ID || flag_bits_of(self.entry(id)[0]) == 256
    }

    /// The operands of expression `id` that are references.
    pub open spec fn args(self, id: u32) -> Seq<u32> {
        let t = self.tag(id);
        if 8 <= t <= 10 {
            self.entry(id).drop_first()
        } else if 5 <= t <= 7 {
            seq![self.entry(id)[1]]
        } else {
            seq![]
        }
    }

    /// Room for `k` more expressions with ids that fit in `u32`.
    pub open spec fn room(self, k: nat) -> bool {
        self.entries().len() + k <= u32::MAX
    }

    pub open spec fn wf(self) -> bool {
        let es = self.entries();
        &&& es.len() >= 6
        &&& es.len() <= u32::MAX
        &&& self.words() == (self.alphabet() + 31) / 32
        &&& self.alphabet() <= 256
        &&& forall|i: int| 0 < i < es.len() ==> valid_entry(#[trigger] es[i], i, self.words() as int)
        &&& forall|i: int, j: int| 0 < i < j < es.len() ==> #[trigger] es[i] != #[trigger] es[j]
        &&& es[1] == seq![1u32]
        &&& es[2] == seq![2u32]
        &&& all_ones(es[3], self.words() as int)
        &&& es[4] == seq![256u32 | 7u32, 3u32, 0u32, u32::MAX]
        &&& es[5] == seq![7u32, 3u32, 1u32, u32::MAX]
    }

    /// `other` keeps every id of `self` and the alphabet.
    pub open spec fn grows_to(self, other: ExprSet) -> bool {
        &&& other.wf()
        &&& other.alphabet() == self.alphabet()
        &&& other.words() == self.words()
        &&& self.entries().len() <= other.entries().len()
        &&& forall|i: int| 0 <= i < self.entries().len() ==> #[trigger] other.entries()[i] == self.entries()[i]
    }

    pub fn new(alphabet_size: usize) -> (r: Self)
        requires
            alphabet_size <= 256,
        ensures
            r.wf(),
            r.alphabet() == alphabet_size,
            r.entries().len() == 6,
    {
        let alphabet_words = (alphabet_size + 31) / 32;
        let mut exprs: Vec<Vec<u32>> = Vec::new();
        exprs.push(Vec::new());
        exprs.push(Expr::EmptyString.serialize());
        exprs.push(Expr::NoMatch.serialize());
        exprs.push(Expr::ByteSet(vec![0xffff_ffffu32; alphabet_words]).serialize());
        exprs.push(
            Expr::Repeat(ExprFlags::from_nullable(true), ExprRef(ExprRef::ANY_BYTE_ID), 0, u32::MAX).serialize(),
        );
        exprs.push(
            Expr::Repeat(ExprFlags::from_nullable(false), ExprRef(ExprRef::ANY_BYTE_ID), 1, u32::MAX).serialize(),
        );
        let r = ExprSet { exprs, alphabet_size, alphabet_words };
        proof {
            let es = r.entries();
            lemma_head(0, 1);
            lemma_head(0, 2);
            lemma_head(0, 4);
            lemma_head(256, 7);
            lemma_head(0, 7);
            assert(0u32 | 7u32 == 7u32) by (bit_vector);
            assert(es[1] =~= seq![1u32]);
            assert(es[2] =~= seq![2u32]);
            assert(es[4] =~= seq![256u32 | 7u32, 3u32, 0u32, u32::MAX]);
            assert(es[5] =~= seq![7u32, 3u32, 1u32, u32::MAX]);
            assert(all_ones(es[3], alphabet_words as int));
            assert forall|i: int| 0 < i < es.len() implies valid_entry(
                #[trigger] es[i],
                i,
                alphabet_words as int,
            ) by {
                if i == 1 {
                    assert(es[i][0] == 0u32 | 1u32);
                } else if i == 2 {
                    assert(es[i][0] == 0u32 | 2u32);
                } else if i == 3 {
                    assert(es[i][0] == 0u32 | 4u32);
                } else if i == 5 {
                    assert(es[i][0] == 0u32 | 7u32);
                }
            }
            assert forall|i: int, j: int| 0 < i < j < es.len() implies #[trigger] es[i]
                != #[trigger] es[j] by {
                if i == 3 {
                    assert(es[i][0] != es[j][0]);
                } else if j == 3 {
                    assert(es[i][0] != es[j][0]);
                } else if i == 4 && j == 5 {
                    assert(es[i][2] != es[j][2]);
                } else {
                    assert(es[i][0] != es[j][0]);
                }
            }
        }
        r
    }

    /// The id of the slot holding `enc`, if any.
    fn find(&self, enc: &Vec<u32>) -> (r: Option<u32>)
        requires
            self.wf(),
        ensures
            r matches Some(i) ==> self.valid_ref(i) && self.entry(i) == enc@,
            r is None ==> forall|i: int| 0 < i < self.entries().len() ==> self.entries()[i] != enc@,
    {
        let mut i: usize = 1;
        while i < self.exprs.len()
            invariant
                self.wf(),
                1 <= i <= self.entries().len(),
                forall|k: int| 0 < k < i ==> self.entries()[k] != enc@,
            decreases self.exprs@.len() - i,
        {
            if same_words(self.exprs[i].as_slice(), enc.as_slice()) {
                return Some(i as u32);
            }
            i = i + 1;
        }
        None
    }

    /// Stores `e` unless an equal expression is stored already; returns its id.
    fn mk(&mut self, e: Expr) -> (r: ExprRef)
        requires
            old(self).wf(),
            old(self).room(1),
            valid_entry(e.encoding(), old(self).entries().len() as int, old(self).words() as int),
        ensures
            old(self).grows_to(*final(self)),
            final(self).entries().len() <= old(self).entries().len() + 1,
            final(self).valid_ref(r.id()),
            final(self).entry(r.id()) == e.encoding(),
    {
        let enc = e.serialize();
        match self.find(&enc) {
            Some(i) => ExprRef(i),
            None => {
                let id = self.exprs.len() as u32;
                let ghost prev = self.entries();
                self.exprs.push(enc);
                proof {
                    let es = self.entries();
                    assert(es == prev.push(enc@));
                    assert forall|i: int| 0 < i < es.len() implies valid_entry(
                        #[trigger] es[i],
                        i,
                        self.words() as int,
                    ) by {
                        if i < prev.len() {
                            assert(es[i] == prev[i]);
                        }
                    }
                }
                ExprRef(id)
            },
        }
    }

    pub fn get(&self, id: ExprRef) -> (r: Expr)
        requires
            self.wf(),
            self.valid_ref(id.id()),
        ensures
            r.encoding() == self.entry(id.id()),
    {
        let ghost es = self.entries();
        proof {
            assert(valid_entry(es[id.id() as int], id.id() as int, self.words() as int));
        }
        Expr::from_slice(self.exprs[id.0 as usize].as_slice(), Ghost(id.id() as int), Ghost(self.words() as int))
    }

    fn get_flags(&self, id: ExprRef) -> (r: ExprFlags)
        requires
            self.wf(),
            self.valid_ref(id.id()),
        ensures
            r.nullable_spec() == self.nullable(id.id()),
    {
        if id.0 == ExprRef::EMPTY_STRING_ID {
            return ExprFlags::from_nullable(true);
        }
        let ghost es = self.entries();
        proof {
            assert(valid_entry(es[id.id() as int], id.id() as int, self.words() as int));
        }
        ExprFlags(self.exprs[id.0 as usize][0] & !0xffu32)
    }

    fn get_tag(&self, id: ExprRef) -> (r: ExprTag)
        requires
            self.wf(),
            self.valid_ref(id.id()),
        ensures
            r.code() == self.tag(id.id()),
    {
        let ghost es = self.entries();
        proof {
            assert(valid_entry(es[id.id() as int], id.id() as int, self.words() as int));
        }
        let tag = self.exprs[id.0 as usize][0] & 0xffu32;
        ExprTag::from_u8(tag as u8)
    }

    /// The operands of `id` that are references, in order.
    pub fn get_args(&self, id: ExprRef) -> (r: Vec<ExprRef>)
        requires
            self.wf(),
            self.valid_ref(id.id()),
        ensures
            ref_ids(r@) == self.args(id.id()),
            forall|k: int| 0 <= k < r@.len() ==> self.valid_ref(#[trigger] r@[k].id()),
    {
        let ghost es = self.entries();
        proof {
            assert(valid_entry(es[id.id() as int], id.id() as int, self.words() as int));
        }
        let s = self.exprs[id.0 as usize].as_slice();
        let r = match self.get_tag(id) {
            ExprTag::Concat | ExprTag::Or | ExprTag::And => refs_from(s, 1),
            ExprTag::Not | ExprTag::Repeat | ExprTag::Lookahead => {
                let mut v: Vec<ExprRef> = Vec::new();
                v.push(ExprRef::new(s[1]));
                proof {
                    lemma_ref_ids(v@, seq![s@[1]]);
                }
                v
            },
            _ => {
                let v: Vec<ExprRef> = Vec::new();
                proof {
                    lemma_ref_ids(v@, seq![]);
                }
                v
            },
        };
        proof {
            assert(s@.subrange(1, s@.len() as int) =~= s@.drop_first());
            assert forall|k: int| 0 <= k < r@.len() implies self.valid_ref(#[trigger] r@[k].id()) by {
                assert(ref_ids(r@)[k] == r@[k].id());
            }
        }
        r
    }

    pub fn is_nullable(&self, id: ExprRef) -> (r: bool)
        requires
            self.wf(),
            self.valid_ref(id.id()),
        ensures
            r == self.nullable(id.id()),
    {
        self.get_flags(id).is_nullable()
    }

    pub fn alphabet_size(&self) -> (r: usize)
        ensures
            r == self.alphabet(),
    {
        self.alphabet_size
    }

    pub fn alphabet_words(&self) -> (r: usize)
        ensures
            r == self.words(),
    {
        self.alphabet_words
    }

    /// The number of stored expressions.
    pub fn len(&self) -> (r: usize)
        requires
            self.wf(),
        ensures
            r == self.entries().len() - 1,
    {
        self.exprs.len() - 1
    }

    pub fn mk_byte(&mut self, b: u8) -> (r: ExprRef)
        requires
            old(self).wf(),
            old(self).room(1),
            (b as int) < 32 * old(self).words(),
        ensures
            old(self).grows_to(*final(self)),
            final(self).entries().len() <= old(self).entries().len() + 1,
            final(self).valid_ref(r.id()),
            final(self).entry(r.id()) == seq![3u32, b as u32],
    {
        proof {
            lemma_head(0, 3);
        }
        self.mk(Expr::Byte(b))
    }

    /// Number of set bits among the first `n` positions of `s`.
    pub open spec fn count_bits(s: Seq<u32>, n: int) -> nat
        decreases n,
    {
        if n <= 0 {
            0
        } else {
            Self::count_bits(s, n - 1) + if byteset_has(s, n - 1) { 1nat } else { 0nat }
        }
    }

    /// A set of bytes: nothing for an empty set, the byte itself for a single
    /// one, and a byte-set expression otherwise.
    pub fn mk_byte_set(&mut self, s: &[u32]) -> (r: ExprRef)
        requires
            old(self).wf(),
            old(self).room(1),
            s@.len() == old(self).words(),
        ensures
            old(self).grows_to(*final(self)),
            final(self).entries().len() <= old(self).entries().len() + 1,
            final(self).valid_ref(r.id()),
            Self::count_bits(s@, 32 * s@.len() as int) == 0 ==> r.id() == ExprRef::NO_MATCH_ID,
            Self::count_bits(s@, 32 * s@.len() as int) == 1 ==> exists|c: int|
                0 <= c < 32 * s@.len() && byteset_has(s@, c) && final(self).entry(r.id()) == seq![3u32, c as u32],
            Self::count_bits(s@, 32 * s@.len() as int) >= 2 ==> final(self).entry(r.id()) == seq![4u32] + s@,
    {
        let n: usize = 32 * self.alphabet_words;
        let mut num_set: usize = 0;
        let mut first: usize = 0;
        let mut i: usize = 0;
        while i < n
            invariant
                self.wf(),
                n == 32 * s@.len(),
                s@.len() <= 8,
                0 <= i <= n,
                num_set == Self::count_bits(s@, i as int),
                num_set <= i,
                num_set >= 1 ==> first < i && byteset_has(s@, first as int),
                num_set == 1 ==> forall|c: int| 0 <= c < i && c != first ==> !byteset_has(s@, c),
                num_set == 0 ==> forall|c: int| 0 <= c < i ==> !byteset_has(s@, c),
            decreases n - i,
        {
            if byteset_contains(s, i) {
                if num_set == 0 {
                    first = i;
                }
                num_set = num_set + 1;
            }
            i = i + 1;
        }
        if num_set == 0 {
            ExprRef(ExprRef::NO_MATCH_ID)
        } else if num_set == 1 {
            proof {
                lemma_head(0, 3);
            }
            self.mk_byte(first as u8)
        } else {
            let v = words_from(s, 0);
            proof {
                lemma_head(0, 4);
                assert(v@ =~= s@);
            }
            self.mk(Expr::ByteSet(v))
        }
    }

    /// `e` repeated between `min` and `max` times.
    pub fn mk_repeat(&mut self, e: ExprRef, min: u32, max: u32) -> (r: ExprRef)
        requires
            old(self).wf(),
            old(self).room(1),
            old(self).valid_ref(e.id()),
            e.id() == ExprRef::NO_MATCH_ID || min <= max,
        ensures
            old(self).grows_to(*final(self)),
            final(self).entries().len() <= old(self).entries().len() + 1,
            final(self).valid_ref(r.id()),
            e.id() == ExprRef::NO_MATCH_ID ==> r.id() == if min == 0 {
                ExprRef::EMPTY_STRING_ID
            } else {
                ExprRef::NO_MATCH_ID
            },
            e.id() != ExprRef::NO_MATCH_ID && max == 0 ==> r.id() == ExprRef::EMPTY_STRING_ID,
            e.id() != ExprRef::NO_MATCH_ID && max != 0 && min == 1 && max == 1 ==> r == e,
            e.id() != ExprRef::NO_MATCH_ID && max != 0 && !(min == 1 && max == 1) ==> {
                let m = if old(self).nullable(e.id()) { 0u32 } else { min };
                final(self).entry(r.id()) == seq![
                    (if m == 0 { 256u32 } else { 0u32 }) | 7u32,
                    e.id(),
                    m,
                    max,
                ]
            },
    {
        if e.0 == ExprRef::NO_MATCH_ID {
            if min == 0 {
                ExprRef(ExprRef::EMPTY_STRING_ID)
            } else {
                ExprRef(ExprRef::NO_MATCH_ID)
            }
        } else if max == 0 {
            ExprRef(ExprRef::EMPTY_STRING_ID)
        } else if min == 1 && max == 1 {
            e
        } else {
            let min = if self.is_nullable(e) {
                0
            } else {
                min
            };
            let flags = ExprFlags::from_nullable(min == 0);
            proof {
                lemma_head(flags.bits(), 7);
            }
            self.mk(Expr::Repeat(flags, e, min, max))
        }
    }

    /// The complement of `e`.
    pub fn mk_not(&mut self, e: ExprRef) -> (r: ExprRef)
        requires
            old(self).wf(),
            old(self).room(1),
            old(self).valid_ref(e.id()),
        ensures
            old(self).grows_to(*final(self)),
            final(self).entries().len() <= old(self).entries().len() + 1,
            final(self).valid_ref(r.id()),
            e.id() == ExprRef::EMPTY_STRING_ID ==> r.id() == ExprRef::NON_EMPTY_STRING_ID,
            e.id() == ExprRef::NON_EMPTY_STRING_ID ==> r.id() == ExprRef::EMPTY_STRING_ID,
            e.id() == ExprRef::ANY_STRING_ID ==> r.id() == ExprRef::NO_MATCH_ID,
            e.id() == ExprRef::NO_MATCH_ID ==> r.id() == ExprRef::ANY_STRING_ID,
            !(1 <= e.id() <= 2 || 4 <= e.id() <= 5) ==> if old(self).tag(e.id()) == 6 {
                r.id() == old(self).entry(e.id())[1]
            } else {
                final(self).entry(r.id()) == seq![
                    (if old(self).nullable(e.id()) { 0u32 } else { 256u32 }) | 6u32,
                    e.id(),
                ]
            },
    {
        if e.0 == ExprRef::EMPTY_STRING_ID {
            ExprRef(ExprRef::NON_EMPTY_STRING_ID)
        } else if e.0 == ExprRef::NON_EMPTY_STRING_ID {
            ExprRef(ExprRef::EMPTY_STRING_ID)
        } else if e.0 == ExprRef::ANY_STRING_ID {
            ExprRef(ExprRef::NO_MATCH_ID)
        } else if e.0 == ExprRef::NO_MATCH_ID {
            ExprRef(ExprRef::ANY_STRING_ID)
        } else {
            let n = self.get(e);
            proof {
                let es = self.entries();
                assert(valid_entry(es[e.id() as int], e.id() as int, self.words() as int));
                lemma_split_head(es[e.id() as int][0]);
            }
            match n {
                Expr::Not(f, e2) => {
                    proof {
                        use_type_invariant(f);
                        lemma_head(f.bits(), 6);
                    }
                    return e2;
                },
                _ => {},
            }
            proof {
                let h = self.entries()[e.id() as int][0];
                if tag_of(h) == 6 {
                    lemma_split_head(h);
                    match n {
                        Expr::Not(_, _) => {},
                        Expr::Lookahead(f, _, _) => { use_type_invariant(f); lemma_head(f.bits(), 5); },
                        Expr::Repeat(f, _, _, _) => { use_type_invariant(f); lemma_head(f.bits(), 7); },
                        Expr::Concat(f, _) => { use_type_invariant(f); lemma_head(f.bits(), 8); },
                        Expr::Or(f, _) => { use_type_invariant(f); lemma_head(f.bits(), 9); },
                        Expr::And(f, _) => { use_type_invariant(f); lemma_head(f.bits(), 10); },
                        Expr::EmptyString => { lemma_head(0, 1); },
                        Expr::NoMatch => { lemma_head(0, 2); },
                        Expr::Byte(_) => { lemma_head(0, 3); },
                        Expr::ByteSet(_) => { lemma_head(0, 4); },
                    }
                }
            }
            let flags = ExprFlags::from_nullable(!self.is_nullable(e));
            proof {
                lemma_head(flags.bits(), 6);
            }
            self.mk(Expr::Not(flags, e))
        }
    }

    /// A lookahead of `e` at `offset`; a nullable `e` is replaced by the empty string.
    pub fn mk_lookahead(&mut self, e: ExprRef, offset: u32) -> (r: ExprRef)
        requires
            old(self).wf(),
            old(self).room(1),
            old(self).valid_ref(e.id()),
        ensures
            old(self).grows_to(*final(self)),
            final(self).entries().len() <= old(self).entries().len() + 1,
            final(self).valid_ref(r.id()),
            e.id() == ExprRef::NO_MATCH_ID ==> r.id() == ExprRef::NO_MATCH_ID,
            e.id() != ExprRef::NO_MATCH_ID ==> final(self).entry(r.id()) == if old(self).nullable(e.id()) {
                seq![256u32 | 5u32, ExprRef::EMPTY_STRING_ID, offset]
            } else {
                seq![0u32 | 5u32, e.id(), offset]
            },
    {
        if e.0 == ExprRef::NO_MATCH_ID {
            return ExprRef(ExprRef::NO_MATCH_ID);
        }
        let mut e = e;
        let flags = if self.is_nullable(e) {
            e = ExprRef(ExprRef::EMPTY_STRING_ID);
            ExprFlags::from_nullable(true)
        } else {
            ExprFlags::from_nullable(false)
        };
        proof {
            lemma_head(flags.bits(), 5);
        }
        self.mk(Expr::Lookahead(flags, e, offset))
    }

    /// `s` with every element of tag `t` replaced by its operands (one level).
    pub open spec fn flat(self, t: u32, s: Seq<u32>) -> Seq<u32>
        decreases s.len(),
    {
        if s.len() == 0 {
            seq![]
        } else {
            let x = s.last();
            self.flat(t, s.drop_last()) + if self.tag(x) == t {
                self.args(x)
            } else {
                seq![x]
            }
        }
    }

    pub open spec fn all_valid(self, s: Seq<u32>) -> bool {
        forall|k: int| 0 <= k < s.len() ==> self.valid_ref(#[trigger] s[k])
    }

    proof fn lemma_args_valid(self, x: u32)
        requires
            self.wf(),
            self.valid_ref(x),
        ensures
            self.all_valid(self.args(x)),
    {
        let es = self.entries();
        assert(valid_entry(es[x as int], x as int, self.words() as int));
        let a = self.args(x);
        assert forall|k: int| 0 <= k < a.len() implies self.valid_ref(#[trigger] a[k]) by {
            if 8 <= self.tag(x) <= 10 {
                assert(a[k] == es[x as int][k + 1]);
            }
        }
    }

    proof fn lemma_flat_valid(self, t: u32, s: Seq<u32>)
        requires
            self.wf(),
            self.all_valid(s),
        ensures
            self.all_valid(self.flat(t, s)),
        decreases s.len(),
    {
        if s.len() > 0 {
            self.lemma_flat_valid(t, s.drop_last());
            self.lemma_args_valid(s.last());
        }
    }

    /// Replaces each argument of tag `exp_tag` by its operands.
    fn flatten_tag(&self, exp_tag: ExprTag, args: Vec<ExprRef>) -> (r: Vec<ExprRef>)
        requires
            self.wf(),
            self.all_valid(ref_ids(args@)),
        ensures
            ref_ids(r@) == self.flat(exp_tag.code(), ref_ids(args@)),
            self.all_valid(ref_ids(r@)),
    {
        let mut res: Vec<ExprRef> = Vec::new();
        let mut i: usize = 0;
        while i < args.len()
            invariant
                self.wf(),
                self.all_valid(ref_ids(args@)),
                0 <= i <= args@.len(),
                ref_ids(res@) == self.flat(exp_tag.code(), ref_ids(args@.subrange(0, i as int))),
            decreases args@.len() - i,
        {
            let x = args[i];
            assert(ref_ids(args@)[i as int] == x.id());
            let ghost before = res@;
            let tag = self.get_tag(x);
            if tag == exp_tag {
                let mut a = self.get_args(x);
                res.append(&mut a);
            } else {
                res.push(x);
            }
            proof {
                let pre = ref_ids(args@.subrange(0, i as int));
                let post = ref_ids(args@.subrange(0, i + 1));
                assert(post.drop_last() =~= pre);
                assert(post.last() == x.id());
                lemma_ref_ids_concat(before, res@.subrange(before.len() as int, res@.len() as int));
                assert(before + res@.subrange(before.len() as int, res@.len() as int) =~= res@);
                if tag != exp_tag {
                    assert(ref_ids(res@.subrange(before.len() as int, res@.len() as int)) =~= seq![x.id()]);
                }
            }
            i = i + 1;
        }
        proof {
            assert(args@.subrange(0, args@.len() as int) =~= args@);
            self.lemma_flat_valid(exp_tag.code(), ref_ids(args@));
        }
        res
    }

    /// All of `s` but the occurrences of `x`, in order.
    pub open spec fn without(s: Seq<u32>, x: u32) -> Seq<u32>
        decreases s.len(),
    {
        if s.len() == 0 {
            seq![]
        } else {
            Self::without(s.drop_last(), x) + if s.last() == x {
                seq![]
            } else {
                seq![s.last()]
            }
        }
    }

    pub open spec fn all_nullable(self, s: Seq<u32>) -> bool {
        forall|k: int| 0 <= k < s.len() ==> self.nullable(#[trigger] s[k])
    }

    /// The concatenation of `args`; nested concatenations are flattened and
    /// empty strings dropped.
    pub fn mk_concat(&mut self, args: Vec<ExprRef>) -> (r: ExprRef)
        requires
            old(self).wf(),
            old(self).room(1),
            old(self).all_valid(ref_ids(args@)),
        ensures
            old(self).grows_to(*final(self)),
            final(self).entries().len() <= old(self).entries().len() + 1,
            final(self).valid_ref(r.id()),
            ({
                let k = Self::without(old(self).flat(8, ref_ids(args@)), ExprRef::EMPTY_STRING_ID);
                if k.len() == 0 {
                    r.id() == ExprRef::EMPTY_STRING_ID
                } else if k.len() == 1 {
                    r.id() == k[0]
                } else if k.contains(ExprRef::NO_MATCH_ID) {
                    r.id() == ExprRef::NO_MATCH_ID
                } else {
                    final(self).entry(r.id()) == seq![
                        (if old(self).all_nullable(k) { 256u32 } else { 0u32 }) | 8u32,
                    ] + k
                }
            }),
    {
        let args = self.flatten_tag(ExprTag::Concat, args);
        let ghost f = ref_ids(args@);
        let mut kept: Vec<ExprRef> = Vec::new();
        let mut has_no_match = false;
        let mut nullable = true;
        let mut i: usize = 0;
        while i < args.len()
            invariant
                self.wf(),
                f == ref_ids(args@),
                self.all_valid(f),
                0 <= i <= args@.len(),
                ref_ids(kept@) == Self::without(f.subrange(0, i as int), ExprRef::EMPTY_STRING_ID),
                has_no_match == ref_ids(kept@).contains(ExprRef::NO_MATCH_ID),
                nullable == self.all_nullable(ref_ids(kept@)),
            decreases args@.len() - i,
        {
            let x = args[i];
            assert(f[i as int] == x.id());
            let ghost before = kept@;
            if x.0 != ExprRef::EMPTY_STRING_ID {
                kept.push(x);
                if x.0 == ExprRef::NO_MATCH_ID {
                    has_no_match = true;
                }
                if !self.is_nullable(x) {
                    nullable = false;
                }
            }
            proof {
                let pre = f.subrange(0, i as int);
                let post = f.subrange(0, i + 1);
                assert(post.drop_last() =~= pre);
                assert(post.last() == x.id());
                if x.id() != ExprRef::EMPTY_STRING_ID {
                    assert(ref_ids(kept@) =~= ref_ids(before).push(x.id()));
                    assert(ref_ids(kept@).contains(ExprRef::NO_MATCH_ID) == (ref_ids(before).contains(
                        ExprRef::NO_MATCH_ID,
                    ) || x.id() == ExprRef::NO_MATCH_ID)) by {
                        if x.id() == ExprRef::NO_MATCH_ID {
                            assert(ref_ids(kept@)[before.len() as int] == x.id());
                        }
                        if ref_ids(before).contains(ExprRef::NO_MATCH_ID) {
                            let j = choose|j: int| 0 <= j < ref_ids(before).len() && ref_ids(before)[j] == ExprRef::NO_MATCH_ID;
                            assert(ref_ids(kept@)[j] == ExprRef::NO_MATCH_ID);
                        }
                    }
                    assert(ref_ids(before).len() == before.len());
                    let kb = ref_ids(before);
                    let ka = ref_ids(kept@);
                    assert(self.all_nullable(ka) == (self.all_nullable(kb) && self.nullable(x.id()))) by {
                        if self.all_nullable(kb) && self.nullable(x.id()) {
                            assert forall|k: int| 0 <= k < ka.len() implies self.nullable(#[trigger] ka[k]) by {
                                if k < kb.len() {
                                    assert(ka[k] == kb[k]);
                                }
                            }
                        }
                        if self.all_nullable(ka) {
                            assert(ka[kb.len() as int] == x.id());
                            assert forall|k: int| 0 <= k < kb.len() implies self.nullable(#[trigger] kb[k]) by {
                                assert(ka[k] == kb[k]);
                            }
                        }
                    }
                } else {
                    assert(Self::without(post, ExprRef::EMPTY_STRING_ID) =~= Self::without(pre, ExprRef::EMPTY_STRING_ID));
                }
            }
            i = i + 1;
        }
        proof {
            assert(f.subrange(0, f.len() as int) =~= f);
            assert(self.all_valid(ref_ids(kept@))) by {
                lemma_without_valid(*self, f, ExprRef::EMPTY_STRING_ID);
            }
        }
        if kept.len() == 0 {
            ExprRef(ExprRef::EMPTY_STRING_ID)
        } else if kept.len() == 1 {
            assert(ref_ids(kept@)[0] == kept@[0].id());
            kept[0]
        } else if has_no_match {
            ExprRef(ExprRef::NO_MATCH_ID)
        } else {
            let flags = ExprFlags::from_nullable(nullable);
            proof {
                lemma_head(flags.bits(), 8);
                assert(Expr::Concat(flags, kept).encoding() =~= seq![flags.bits() | 8u32] + ref_ids(kept@));
            }
            self.mk(Expr::Concat(flags, kept))
        }
    }
}

proof fn lemma_ref_ids_concat(a: Seq<ExprRef>, b: Seq<ExprRef>)
    ensures
        ref_ids(a + b) == ref_ids(a) + ref_ids(b),
{
    assert(ref_ids(a + b) =~= ref_ids(a) + ref_ids(b));
}

proof fn lemma_without_valid(set: ExprSet, s: Seq<u32>, x: u32)
    requires
        set.all_valid(s),
    ensures
        set.all_valid(ExprSet::without(s, x)),
    decreases s.len(),
{
    if s.len() > 0 {
        lemma_without_valid(set, s.drop_last(), x);
    }
}

pub open spec fn increasing(s: Seq<u32>) -> bool {
    forall|i: int, j: int| 0 <= i < j < s.len() ==> s[i] < s[j]
}

/// Inserts `e` into the strictly increasing `args`, unless it is there already.
fn add_to_sorted(args: &mut Vec<u32>, e: u32)
    requires
        increasing(old(args)@),
    ensures
        increasing(final(args)@),
        forall|y: u32| #[trigger] final(args)@.contains(y) <==> (old(args)@.contains(y) || y == e),
{
    let mut idx: usize = 0;
    while idx < args.len() && args[idx] < e
        invariant
            0 <= idx <= args@.len(),
            forall|k: int| 0 <= k < idx ==> args@[k] < e,
        decreases args@.len() - idx,
    {
        idx = idx + 1;
    }
    if idx < args.len() && args[idx] == e {
        return;
    }
    let ghost prev = args@;
    args.insert(idx, e);
    proof {
        let fin = args@;
        assert(fin == prev.insert(idx as int, e));
        assert forall|y: u32| #[trigger] fin.contains(y) <==> (prev.contains(y) || y == e) by {
            if y == e {
                assert(fin[idx as int] == e);
            }
            if prev.contains(y) {
                let k = choose|k: int| 0 <= k < prev.len() && prev[k] == y;
                if k < idx {
                    assert(fin[k] == y);
                } else {
                    assert(fin[k + 1] == y);
                }
            }
            if fin.contains(y) {
                let k = choose|k: int| 0 <= k < fin.len() && fin[k] == y;
                if k < idx {
                    assert(prev[k] == y);
                } else if k > idx {
                    assert(prev[k - 1] == y);
                }
            }
        }
    }
}

/// The distinct elements of `v`, in increasing order.
fn sorted_unique(v: &Vec<u32>) -> (r: Vec<u32>)
    ensures
        increasing(r@),
        forall|y: u32| #[trigger] r@.contains(y) <==> v@.contains(y),
{
    let mut r: Vec<u32> = Vec::new();
    for i in 0..v.len()
        invariant
            increasing(r@),
            forall|y: u32| #[trigger] r@.contains(y) <==> v@.subrange(0, i as int).contains(y),
    {
        let ghost pre = v@.subrange(0, i as int);
        add_to_sorted(&mut r, v[i]);
        proof {
            let post = v@.subrange(0, i + 1);
            assert(post == pre.push(v@[i as int]));
            assert forall|y: u32| #[trigger] r@.contains(y) <==> post.contains(y) by {
                if post.contains(y) {
                    let k = choose|k: int| 0 <= k < post.len() && post[k] == y;
                    if k < pre.len() {
                        assert(pre[k] == y);
                    }
                }
                if pre.contains(y) {
                    let k = choose|k: int| 0 <= k < pre.len() && pre[k] == y;
                    assert(post[k] == y);
                }
                if y == v@[i as int] {
                    assert(post[i as int] == y);
                }
            }
        }
    }
    assert(v@.subrange(0, v@.len() as int) =~= v@);
    r
}

fn ids_of(v: &Vec<ExprRef>) -> (r: Vec<u32>)
    ensures
        r@ == ref_ids(v@),
{
    let mut r: Vec<u32> = Vec::new();
    for i in 0..v.len()
        invariant
            r@.len() == i,
            forall|k: int| 0 <= k < i ==> r@[k] == (#[trigger] v@[k]).id(),
    {
        r.push(v[i].0);
    }
    assert(r@ =~= ref_ids(v@));
    r
}

proof fn lemma_without_props(s: Seq<u32>, x: u32)
    ensures
        forall|y: u32| #[trigger] ExprSet::without(s, x).contains(y) <==> (s.contains(y) && y != x),
        increasing(s) ==> increasing(ExprSet::without(s, x)),
        !ExprSet::without(s, x).contains(x),
        ExprSet::without(s, x).len() <= s.len(),
    decreases s.len(),
{
    if s.len() > 0 {
        let d = s.drop_last();
        lemma_without_props(d, x);
        let w = ExprSet::without(d, x);
        let ws = ExprSet::without(s, x);
        assert forall|y: u32| #[trigger] ws.contains(y) <==> (s.contains(y) && y != x) by {
            if ws.contains(y) {
                let k = choose|k: int| 0 <= k < ws.len() && ws[k] == y;
                if k < w.len() {
                    assert(w[k] == y);
                    assert(w.contains(y));
                    let j = choose|j: int| 0 <= j < d.len() && d[j] == y;
                    assert(s[j] == y);
                } else {
                    assert(s[s.len() - 1] == y);
                }
            }
            if s.contains(y) && y != x {
                let k = choose|k: int| 0 <= k < s.len() && s[k] == y;
                if k < d.len() {
                    assert(d[k] == y);
                    assert(d.contains(y));
                    assert(w.contains(y));
                    let j = choose|j: int| 0 <= j < w.len() && w[j] == y;
                    assert(ws[j] == y);
                } else {
                    assert(ws[ws.len() - 1] == y);
                }
            }
        }
        if increasing(s) {
            assert(increasing(d));
            assert forall|i: int, j: int| 0 <= i < j < ws.len() implies ws[i] < ws[j] by {
                if j >= w.len() {
                    assert(w.contains(ws[i]));
                    let k = choose|k: int| 0 <= k < d.len() && d[k] == ws[i];
                    assert(s[k] == ws[i]);
                }
            }
        }
    }
}

impl ExprSet {
    proof fn lemma_push_all(self, s: Seq<u32>, x: u32)
        ensures
            self.all_nullable(s.push(x)) == (self.all_nullable(s) && self.nullable(x)),
            self.all_valid(s.push(x)) == (self.all_valid(s) && self.valid_ref(x)),
    {
        let t = s.push(x);
        assert(t[s.len() as int] == x);
        assert forall|k: int| 0 <= k < s.len() implies #[trigger] t[k] == s[k] by {}
        if self.all_nullable(s) && self.nullable(x) {
            assert forall|k: int| 0 <= k < t.len() implies self.nullable(#[trigger] t[k]) by {
                if k < s.len() {
                    assert(t[k] == s[k]);
                }
            }
        }
        if self.all_valid(s) && self.valid_ref(x) {
            assert forall|k: int| 0 <= k < t.len() implies self.valid_ref(#[trigger] t[k]) by {
                if k < s.len() {
                    assert(t[k] == s[k]);
                }
            }
        }
        if self.all_nullable(t) {
            assert(self.nullable(t[s.len() as int]));
            assert forall|k: int| 0 <= k < s.len() implies self.nullable(#[trigger] s[k]) by {
                assert(t[k] == s[k]);
            }
        }
        if self.all_valid(t) {
            assert(self.valid_ref(t[s.len() as int]));
            assert forall|k: int| 0 <= k < s.len() implies self.valid_ref(#[trigger] s[k]) by {
                assert(t[k] == s[k]);
            }
        }
    }

    proof fn lemma_valid_members(self, s: Seq<u32>, t: Seq<u32>)
        requires
            self.all_valid(s),
            forall|y: u32| #[trigger] t.contains(y) ==> s.contains(y),
        ensures
            self.all_valid(t),
    {
        assert forall|k: int| 0 <= k < t.len() implies self.valid_ref(#[trigger] t[k]) by {
            assert(t.contains(t[k]));
            let j = choose|j: int| 0 <= j < s.len() && s[j] == t[k];
        }
    }

    /// What an intersection of the distinct operands `l` comes to.
    pub open spec fn and_outcome(self, l: Seq<u32>, had_empty: bool, fin: ExprSet, r: u32) -> bool {
        if l.len() == 0 {
            r == ExprRef::ANY_STRING_ID
        } else if l.len() == 1 {
            r == l[0]
        } else if had_empty {
            r == if self.all_nullable(l) {
                ExprRef::EMPTY_STRING_ID
            } else {
                ExprRef::NO_MATCH_ID
            }
        } else {
            fin.entry(r) == seq![(if self.all_nullable(l) { 256u32 } else { 0u32 }) | 10u32] + l
        }
    }

    /// The intersection of `args`; nested intersections are flattened, the
    /// operands sorted by id and repeated ones and "any string" dropped.
    pub fn mk_and(&mut self, args: Vec<ExprRef>) -> (r: ExprRef)
        requires
            old(self).wf(),
            old(self).room(1),
            old(self).all_valid(ref_ids(args@)),
        ensures
            old(self).grows_to(*final(self)),
            final(self).entries().len() <= old(self).entries().len() + 1,
            final(self).valid_ref(r.id()),
            ({
                let f = old(self).flat(10, ref_ids(args@));
                if f.contains(ExprRef::NO_MATCH_ID) {
                    r.id() == ExprRef::NO_MATCH_ID
                } else {
                    exists|l: Seq<u32>|
                        increasing(l) && (forall|y: u32| #[trigger] l.contains(y) <==> (f.contains(y) && y
                            != ExprRef::ANY_STRING_ID)) && old(self).and_outcome(
                            l,
                            f.contains(ExprRef::EMPTY_STRING_ID),
                            *final(self),
                            r.id(),
                        )
                }
            }),
    {
        let flat = self.flatten_tag(ExprTag::And, args);
        let ids = ids_of(&flat);
        let sorted = sorted_unique(&ids);
        proof {
            self.lemma_valid_members(ids@, sorted@);
        }
        let mut kept: Vec<u32> = Vec::new();
        let mut had_empty = false;
        let mut nullable = true;
        for i in 0..sorted.len()
            invariant
                self.wf(),
                self.all_valid(sorted@),
                ids@ == ref_ids(flat@),
                ref_ids(flat@) == self.flat(10, ref_ids(args@)),
                forall|y: u32| #[trigger] sorted@.contains(y) <==> ids@.contains(y),
                kept@ == Self::without(sorted@.subrange(0, i as int), ExprRef::ANY_STRING_ID),
                forall|k: int| 0 <= k < i ==> sorted@[k] != ExprRef::NO_MATCH_ID,
                had_empty == kept@.contains(ExprRef::EMPTY_STRING_ID),
                nullable == self.all_nullable(kept@),
                self.all_valid(kept@),
        {
            let x = sorted[i];
            let ghost before = kept@;
            proof {
                let post = sorted@.subrange(0, i + 1);
                assert(post.drop_last() =~= sorted@.subrange(0, i as int));
                assert(post.last() == x);
            }
            if x != ExprRef::ANY_STRING_ID {
                if x == ExprRef::NO_MATCH_ID {
                    proof {
                        assert(self.flat(10, ref_ids(args@)).contains(x)) by {
                            assert(sorted@[i as int] == x);
                            assert(sorted@.contains(x));
                            assert(ids@.contains(x));
                        }
                    }
                    return ExprRef(ExprRef::NO_MATCH_ID);
                }
                if x == ExprRef::EMPTY_STRING_ID {
                    had_empty = true;
                }
                if nullable && !self.is_nullable(ExprRef(x)) {
                    nullable = false;
                }
                kept.push(x);
                proof {
                    self.lemma_push_all(before, x);
                    assert(kept@.contains(ExprRef::EMPTY_STRING_ID) == (before.contains(ExprRef::EMPTY_STRING_ID) || x == ExprRef::EMPTY_STRING_ID)) by {
                        if x == ExprRef::EMPTY_STRING_ID {
                            assert(kept@[before.len() as int] == x);
                        }
                        if before.contains(ExprRef::EMPTY_STRING_ID) {
                            let j = choose|j: int| 0 <= j < before.len() && before[j] == ExprRef::EMPTY_STRING_ID;
                            assert(kept@[j] == ExprRef::EMPTY_STRING_ID);
                        }
                        if kept@.contains(ExprRef::EMPTY_STRING_ID) {
                            let j = choose|j: int| 0 <= j < kept@.len() && kept@[j] == ExprRef::EMPTY_STRING_ID;
                            if j < before.len() {
                                assert(before[j] == ExprRef::EMPTY_STRING_ID);
                            }
                        }
                    }
                }
            }
        }
        let ghost f = self.flat(10, ref_ids(args@));
        proof {
            assert(sorted@.subrange(0, sorted@.len() as int) =~= sorted@);
            lemma_without_props(sorted@, ExprRef::ANY_STRING_ID);
            assert(!f.contains(ExprRef::NO_MATCH_ID)) by {
                if f.contains(ExprRef::NO_MATCH_ID) {
                    assert(ids@.contains(ExprRef::NO_MATCH_ID));
                    assert(sorted@.contains(ExprRef::NO_MATCH_ID));
                }
            }
            assert(forall|y: u32| #[trigger] kept@.contains(y) <==> (f.contains(y) && y != ExprRef::ANY_STRING_ID));
        }
        if kept.len() == 0 {
            ExprRef(ExprRef::ANY_STRING_ID)
        } else if kept.len() == 1 {
            ExprRef(kept[0])
        } else if had_empty {
            if nullable {
                ExprRef(ExprRef::EMPTY_STRING_ID)
            } else {
                ExprRef(ExprRef::NO_MATCH_ID)
            }
        } else {
            let flags = ExprFlags::from_nullable(nullable);
            let refs = refs_from(kept.as_slice(), 0);
            proof {
                assert(kept@.subrange(0, kept@.len() as int) =~= kept@);
                lemma_head(flags.bits(), 10);
                assert(Expr::And(flags, refs).encoding() =~= seq![flags.bits() | 10u32] + kept@);
            }
            self.mk(Expr::And(flags, refs))
        }
    }
}

proof fn lemma_push_increasing(s: Seq<u32>, x: u32)
    requires
        increasing(s),
        forall|k: int| 0 <= k < s.len() ==> s[k] < x,
    ensures
        increasing(s.push(x)),
        forall|y: u32| #[trigger] s.push(x).contains(y) <==> (s.contains(y) || y == x),
{
    let t = s.push(x);
    assert forall|i: int, j: int| 0 <= i < j < t.len() implies t[i] < t[j] by {
        if j == s.len() {
            assert(t[i] == s[i]);
        } else {
            assert(t[i] == s[i] && t[j] == s[j]);
        }
    }
    assert forall|y: u32| #[trigger] t.contains(y) <==> (s.contains(y) || y == x) by {
        if t.contains(y) {
            let k = choose|k: int| 0 <= k < t.len() && t[k] == y;
            if k < s.len() {
                assert(s[k] == y);
            }
        }
        if s.contains(y) {
            let k = choose|k: int| 0 <= k < s.len() && s[k] == y;
            assert(t[k] == y);
        }
        if y == x {
            assert(t[s.len() as int] == x);
        }
    }
}

impl ExprSet {
    pub open spec fn is_byte_node(self, y: u32) -> bool {
        self.tag(y) == 3 || self.tag(y) == 4
    }

    pub open spec fn is_lookahead(self, y: u32) -> bool {
        self.tag(y) == 5
    }

    /// Byte `c` is matched by the byte or byte-set expression `x`.
    pub open spec fn byte_in(self, x: u32, c: int) -> bool {
        if self.tag(x) == 3 {
            self.entry(x)[1] == c
        } else {
            self.tag(x) == 4 && byteset_has(self.entry(x).drop_first(), c)
        }
    }

    /// What [`ExprSet::mk_byte_set`] returns for the words `u`.
    pub open spec fn byte_set_outcome(self, u: Seq<u32>, b: u32) -> bool {
        &&& self.valid_ref(b)
        &&& Self::count_bits(u, 32 * u.len() as int) == 0 ==> b == ExprRef::NO_MATCH_ID
        &&& Self::count_bits(u, 32 * u.len() as int) == 1 ==> exists|c: int|
            0 <= c < 32 * u.len() && byteset_has(u, c) && self.entry(b) == seq![3u32, c as u32]
        &&& Self::count_bits(u, 32 * u.len() as int) >= 2 ==> self.entry(b) == seq![4u32] + u
    }

    /// `b` is the single expression for the bytes of all of `bl`, in `fin`.
    pub open spec fn merged_bytes(self, fin: ExprSet, bl: Seq<u32>, b: u32) -> bool {
        exists|u: Seq<u32>|
            u.len() == self.words() && (forall|c: int|
                0 <= c < 32 * self.words() ==> (#[trigger] byteset_has(u, c) <==> exists|x: u32|
                    bl.contains(x) && self.byte_in(x, c))) && fin.byte_set_outcome(u, b)
    }

    /// `y` is an operand of the union of `f` other than "no match".
    pub open spec fn or_candidate(self, f: Seq<u32>, y: u32) -> bool {
        f.contains(y) && y != ExprRef::NO_MATCH_ID
    }

    /// `y` is a lookahead operand of `f` with no other lookahead of the same
    /// expression at a smaller offset.
    pub open spec fn lookahead_kept(self, f: Seq<u32>, y: u32) -> bool {
        &&& self.or_candidate(f, y)
        &&& self.is_lookahead(y)
        &&& !exists|z: u32|
            self.or_candidate(f, z) && self.is_lookahead(z) && self.entry(z)[1] == self.entry(y)[1]
                && self.entry(z)[2] < self.entry(y)[2]
    }

    /// `y` is an operand of the normalised union of `f`.
    pub open spec fn or_member(self, f: Seq<u32>, y: u32, merged: bool, b: u32) -> bool {
        ||| self.or_candidate(f, y) && !self.is_byte_node(y) && !self.is_lookahead(y)
        ||| !merged && self.or_candidate(f, y) && self.is_byte_node(y)
        ||| merged && y == b
        ||| self.lookahead_kept(f, y)
    }

    pub open spec fn any_nullable(self, f: Seq<u32>) -> bool {
        exists|y: u32| self.or_candidate(f, y) && self.nullable(y)
    }

    /// Splits the increasing `sorted` into plain operands, byte operands and
    /// lookaheads, dropping "no match"; `None` when it holds "any string".
    fn split_or_members(&self, sorted: &Vec<u32>) -> (r: Option<(Vec<u32>, Vec<u32>, Vec<u32>, bool)>)
        requires
            self.wf(),
            self.all_valid(sorted@),
            increasing(sorted@),
        ensures
            r is None <==> sorted@.contains(ExprRef::ANY_STRING_ID),
            r matches Some((rest, bl, ll, nullable)) ==> {
                &&& increasing(rest@) && increasing(bl@) && increasing(ll@)
                &&& self.all_valid(rest@) && self.all_valid(bl@) && self.all_valid(ll@)
                &&& forall|y: u32| #[trigger] rest@.contains(y) <==> (self.or_candidate(sorted@, y)
                    && !self.is_byte_node(y) && !self.is_lookahead(y))
                &&& forall|y: u32| #[trigger] bl@.contains(y) <==> (self.or_candidate(sorted@, y)
                    && self.is_byte_node(y))
                &&& forall|y: u32| #[trigger] ll@.contains(y) <==> (self.or_candidate(sorted@, y)
                    && self.is_lookahead(y))
                &&& nullable == self.any_nullable(sorted@)
            },
    {
        let mut rest: Vec<u32> = Vec::new();
        let mut bl: Vec<u32> = Vec::new();
        let mut ll: Vec<u32> = Vec::new();
        let mut nullable = false;
        let mut i: usize = 0;
        while i < sorted.len()
            invariant
                self.wf(),
                self.all_valid(sorted@),
                increasing(sorted@),
                0 <= i <= sorted@.len(),
                !sorted@.subrange(0, i as int).contains(ExprRef::ANY_STRING_ID),
                increasing(rest@) && increasing(bl@) && increasing(ll@),
                self.all_valid(rest@) && self.all_valid(bl@) && self.all_valid(ll@),
                forall|y: u32| #[trigger] rest@.contains(y) <==> (self.or_candidate(sorted@.subrange(0, i as int), y)
                    && !self.is_byte_node(y) && !self.is_lookahead(y)),
                forall|y: u32| #[trigger] bl@.contains(y) <==> (self.or_candidate(sorted@.subrange(0, i as int), y)
                    && self.is_byte_node(y)),
                forall|y: u32| #[trigger] ll@.contains(y) <==> (self.or_candidate(sorted@.subrange(0, i as int), y)
                    && self.is_lookahead(y)),
                nullable == self.any_nullable(sorted@.subrange(0, i as int)),
            decreases sorted@.len() - i,
        {
            let x = sorted[i];
            let ghost pre = sorted@.subrange(0, i as int);
            let ghost post = sorted@.subrange(0, i + 1);
            proof {
                assert(post == pre.push(x));
                assert forall|y: u32| #[trigger] post.contains(y) <==> (pre.contains(y) || y == x) by {
                    if post.contains(y) {
                        let k = choose|k: int| 0 <= k < post.len() && post[k] == y;
                        if k < pre.len() {
                            assert(pre[k] == y);
                        }
                    }
                    if pre.contains(y) {
                        let k = choose|k: int| 0 <= k < pre.len() && pre[k] == y;
                        assert(post[k] == y);
                    }
                    if y == x {
                        assert(post[i as int] == x);
                    }
                }
                assert forall|y: u32| #[trigger] pre.contains(y) implies y < x by {
                    if pre.contains(y) {
                        let k = choose|k: int| 0 <= k < pre.len() && pre[k] == y;
                        assert(sorted@[k] == y);
                    }
                }
                assert(self.valid_ref(x));
            }
            if x == ExprRef::ANY_STRING_ID {
                proof {
                    assert(sorted@[i as int] == x);
                }
                return None;
            }
            if x != ExprRef::NO_MATCH_ID {
                let tag = self.get_tag(ExprRef(x));
                let ghost (r0, b0, l0) = (rest@, bl@, ll@);
                match tag {
                    ExprTag::Byte | ExprTag::ByteSet => {
                        proof {
                            assert forall|k: int| 0 <= k < b0.len() implies b0[k] < x by {
                                assert(b0.contains(b0[k]));
                            }
                            lemma_push_increasing(b0, x);
                            self.lemma_push_all(b0, x);
                        }
                        bl.push(x);
                    },
                    ExprTag::Lookahead => {
                        proof {
                            assert forall|k: int| 0 <= k < l0.len() implies l0[k] < x by {
                                assert(l0.contains(l0[k]));
                            }
                            lemma_push_increasing(l0, x);
                            self.lemma_push_all(l0, x);
                        }
                        ll.push(x);
                    },
                    _ => {
                        proof {
                            assert forall|k: int| 0 <= k < r0.len() implies r0[k] < x by {
                                assert(r0.contains(r0[k]));
                            }
                            lemma_push_increasing(r0, x);
                            self.lemma_push_all(r0, x);
                        }
                        rest.push(x);
                    },
                }
                if !nullable && self.is_nullable(ExprRef(x)) {
                    nullable = true;
                }
            }
            proof {
                assert(!post.contains(ExprRef::ANY_STRING_ID));
                if nullable {
                    if self.any_nullable(pre) {
                        let y = choose|y: u32| self.or_candidate(pre, y) && self.nullable(y);
                        assert(self.or_candidate(post, y));
                    } else {
                        assert(self.or_candidate(post, x));
                    }
                } else {
                    assert forall|y: u32| self.or_candidate(post, y) implies !self.nullable(y) by {
                        if y != x {
                            assert(self.or_candidate(pre, y));
                        }
                    }
                }
            }
            i = i + 1;
        }
        proof {
            assert(sorted@.subrange(0, sorted@.len() as int) =~= sorted@);
        }
        Some((rest, bl, ll, nullable))
    }
}

impl Expr {
    pub open spec fn tag_code(self) -> u32 {
        match self {
            Expr::EmptyString => 1,
            Expr::NoMatch => 2,
            Expr::Byte(_) => 3,
            Expr::ByteSet(_) => 4,
            Expr::Lookahead(..) => 5,
            Expr::Not(..) => 6,
            Expr::Repeat(..) => 7,
            Expr::Concat(..) => 8,
            Expr::Or(..) => 9,
            Expr::And(..) => 10,
        }
    }

    fn tag(&self) -> (r: ExprTag)
        ensures
            self.encoding().len() >= 1,
            r.code() == tag_of(self.encoding()[0]),
            r.code() == self.tag_code(),
    {
        match self {
            Expr::EmptyString => {
                proof {
                    lemma_head(0, 1);
                }
                ExprTag::EmptyString
            },
            Expr::NoMatch => {
                proof {
                    lemma_head(0, 2);
                }
                ExprTag::NoMatch
            },
            Expr::Byte(_) => {
                proof {
                    lemma_head(0, 3);
                }
                ExprTag::Byte
            },
            Expr::ByteSet(_) => {
                proof {
                    lemma_head(0, 4);
                }
                ExprTag::ByteSet
            },
            Expr::Lookahead(f, _, _) => {
                proof {
                    use_type_invariant(f);
                    lemma_head(f.bits(), 5);
                }
                ExprTag::Lookahead
            },
            Expr::Not(f, _) => {
                proof {
                    use_type_invariant(f);
                    lemma_head(f.bits(), 6);
                }
                ExprTag::Not
            },
            Expr::Repeat(f, _, _, _) => {
                proof {
                    use_type_invariant(f);
                    lemma_head(f.bits(), 7);
                }
                ExprTag::Repeat
            },
            Expr::Concat(f, _) => {
                proof {
                    use_type_invariant(f);
                    lemma_head(f.bits(), 8);
                }
                ExprTag::Concat
            },
            Expr::Or(f, _) => {
                proof {
                    use_type_invariant(f);
                    lemma_head(f.bits(), 9);
                }
                ExprTag::Or
            },
            Expr::And(f, _) => {
                proof {
                    use_type_invariant(f);
                    lemma_head(f.bits(), 10);
                }
                ExprTag::And
            },
        }
    }
}

impl ExprSet {
    /// One expression for the union of the byte and byte-set expressions `bl`.
    fn merge_bytes(&mut self, bl: &Vec<u32>) -> (r: ExprRef)
        requires
            old(self).wf(),
            old(self).room(1),
            old(self).all_valid(bl@),
            forall|k: int| 0 <= k < bl@.len() ==> old(self).is_byte_node(#[trigger] bl@[k]),
        ensures
            old(self).grows_to(*final(self)),
            final(self).entries().len() <= old(self).entries().len() + 1,
            old(self).merged_bytes(*final(self), bl@, r.id()),
    {
        let mut acc: Vec<u32> = vec![0u32; self.alphabet_words];
        proof {
            assert forall|c: int| 0 <= c < 32 * self.words() implies !#[trigger] byteset_has(acc@, c) by {
                lemma_zero_word((c % 32) as u32);
            }
        }
        for i in 0..bl.len()
            invariant
                self.wf(),
                self.all_valid(bl@),
                forall|k: int| 0 <= k < bl@.len() ==> self.is_byte_node(#[trigger] bl@[k]),
                acc@.len() == self.words(),
                forall|c: int|
                    0 <= c < 32 * self.words() ==> (#[trigger] byteset_has(acc@, c) <==> exists|k: int|
                        0 <= k < i && self.byte_in(bl@[k], c)),
        {
            let x = bl[i];
            assert(self.valid_ref(x));
            assert(self.is_byte_node(x));
            let e = self.get(ExprRef(x));
            let t = e.tag();
            let ghost before = acc@;
            proof {
                let es = self.entries();
                assert(valid_entry(es[x as int], x as int, self.words() as int));
                lemma_head(0, 3);
                lemma_head(0, 4);
                assert(t.code() == self.tag(x));
            }
            match e {
                Expr::Byte(b) => {
                    byteset_set(&mut acc, b as usize);
                },
                Expr::ByteSet(s) => {
                    proof {
                        assert(self.entry(x).drop_first() =~= s@);
                    }
                    byteset_union(&mut acc, s.as_slice());
                },
                _ => {
                    assert(false);
                },
            }
            proof {
                assert forall|c: int| 0 <= c < 32 * self.words() implies (#[trigger] byteset_has(acc@, c)
                    <==> exists|k: int| 0 <= k < i + 1 && self.byte_in(bl@[k], c)) by {
                    if byteset_has(before, c) {
                        let k = choose|k: int| 0 <= k < i && self.byte_in(bl@[k], c);
                        assert(0 <= k < i + 1 && self.byte_in(bl@[k], c));
                    }
                    if self.byte_in(x, c) {
                        assert(0 <= i < i + 1 && self.byte_in(bl@[i as int], c));
                    }
                    if exists|k: int| 0 <= k < i + 1 && self.byte_in(bl@[k], c) {
                        let k = choose|k: int| 0 <= k < i + 1 && self.byte_in(bl@[k], c);
                        if k < i {
                            assert(byteset_has(before, c));
                        }
                    }
                }
            }
        }
        let r = self.mk_byte_set(acc.as_slice());
        proof {
            let u = acc@;
            assert forall|c: int| 0 <= c < 32 * old(self).words() implies (#[trigger] byteset_has(u, c) <==> exists|x: u32|
                bl@.contains(x) && old(self).byte_in(x, c)) by {
                if byteset_has(u, c) {
                    let k = choose|k: int| 0 <= k < bl@.len() && old(self).byte_in(bl@[k], c);
                    assert(bl@.contains(bl@[k]));
                }
                if exists|x: u32| bl@.contains(x) && old(self).byte_in(x, c) {
                    let x = choose|x: u32| bl@.contains(x) && old(self).byte_in(x, c);
                    let k = choose|k: int| 0 <= k < bl@.len() && bl@[k] == x;
                    assert(0 <= k < bl@.len() && old(self).byte_in(bl@[k], c));
                }
            }
            assert(final(self).byte_set_outcome(u, r.id()));
        }
        r
    }

    /// Of the lookaheads `ll`, those with no lookahead of the same expression
    /// at a smaller offset.
    fn pick_lookaheads(&self, ll: &Vec<u32>) -> (r: Vec<u32>)
        requires
            self.wf(),
            self.all_valid(ll@),
            increasing(ll@),
            forall|k: int| 0 <= k < ll@.len() ==> self.is_lookahead(#[trigger] ll@[k]),
        ensures
            increasing(r@),
            self.all_valid(r@),
            forall|y: u32| #[trigger] r@.contains(y) <==> (ll@.contains(y) && !exists|z: u32|
                ll@.contains(z) && self.entry(z)[1] == self.entry(y)[1] && self.entry(z)[2] < self.entry(y)[2]),
    {
        let mut r: Vec<u32> = Vec::new();
        for i in 0..ll.len()
            invariant
                self.wf(),
                self.all_valid(ll@),
                increasing(ll@),
                forall|k: int| 0 <= k < ll@.len() ==> self.is_lookahead(#[trigger] ll@[k]),
                increasing(r@),
                self.all_valid(r@),
                forall|y: u32| #[trigger] r@.contains(y) <==> (ll@.subrange(0, i as int).contains(y) && !exists|z: u32|
                    ll@.contains(z) && self.entry(z)[1] == self.entry(y)[1] && self.entry(z)[2] < self.entry(y)[2]),
        {
            let y = ll[i];
            assert(self.valid_ref(y));
            let ey = self.exprs[y as usize].as_slice();
            proof {
                let es = self.entries();
                assert(valid_entry(es[y as int], y as int, self.words() as int));
                assert(self.is_lookahead(ll@[i as int]));
            }
            let mut keep = true;
            for j in 0..ll.len()
                invariant
                    self.wf(),
                    self.all_valid(ll@),
                    forall|k: int| 0 <= k < ll@.len() ==> self.is_lookahead(#[trigger] ll@[k]),
                    ey@ == self.entry(y),
                    ey@.len() == 3,
                    keep == !exists|k: int|
                        0 <= k < j && self.entry(ll@[k])[1] == ey@[1] && self.entry(ll@[k])[2] < ey@[2],
            {
                let z = ll[j];
                assert(self.valid_ref(z));
                proof {
                    let es = self.entries();
                    assert(valid_entry(es[z as int], z as int, self.words() as int));
                    assert(self.is_lookahead(ll@[j as int]));
                }
                let ez = self.exprs[z as usize].as_slice();
                if ez[1] == ey[1] && ez[2] < ey[2] {
                    keep = false;
                }
            }
            let ghost pre = ll@.subrange(0, i as int);
            let ghost post = ll@.subrange(0, i + 1);
            let ghost r0 = r@;
            proof {
                assert(post == pre.push(y));
                assert forall|w: u32| #[trigger] post.contains(w) <==> (pre.contains(w) || w == y) by {
                    if post.contains(w) {
                        let k = choose|k: int| 0 <= k < post.len() && post[k] == w;
                        if k < pre.len() {
                            assert(pre[k] == w);
                        }
                    }
                    if pre.contains(w) {
                        let k = choose|k: int| 0 <= k < pre.len() && pre[k] == w;
                        assert(post[k] == w);
                    }
                    if w == y {
                        assert(post[i as int] == y);
                    }
                }
                let q = !exists|z: u32|
                    ll@.contains(z) && self.entry(z)[1] == self.entry(y)[1] && self.entry(z)[2] < self.entry(y)[2];
                assert(keep == q) by {
                    if !q {
                        let z = choose|z: u32|
                            ll@.contains(z) && self.entry(z)[1] == self.entry(y)[1] && self.entry(z)[2] < self.entry(y)[2];
                        let k = choose|k: int| 0 <= k < ll@.len() && ll@[k] == z;
                        assert(0 <= k < ll@.len() && self.entry(ll@[k])[1] == ey@[1] && self.entry(ll@[k])[2] < ey@[2]);
                    }
                    if !keep {
                        let k = choose|k: int|
                            0 <= k < ll@.len() && self.entry(ll@[k])[1] == ey@[1] && self.entry(ll@[k])[2] < ey@[2];
                        assert(ll@.contains(ll@[k]));
                    }
                }
                assert forall|k: int| 0 <= k < r0.len() implies r0[k] < y by {
                    assert(r0.contains(r0[k]));
                    let m = choose|m: int| 0 <= m < pre.len() && pre[m] == r0[k];
                    assert(ll@[m] == r0[k]);
                }
                lemma_push_increasing(r0, y);
                self.lemma_push_all(r0, y);
            }
            if keep {
                r.push(y);
            }
        }
        proof {
            assert(ll@.subrange(0, ll@.len() as int) =~= ll@);
        }
        r
    }
}

/// Adds every element of `xs` to the strictly increasing `m`.
fn add_all_sorted(m: &mut Vec<u32>, xs: &Vec<u32>)
    requires
        increasing(old(m)@),
    ensures
        increasing(final(m)@),
        forall|y: u32| #[trigger] final(m)@.contains(y) <==> (old(m)@.contains(y) || xs@.contains(y)),
{
    for i in 0..xs.len()
        invariant
            increasing(m@),
            forall|y: u32| #[trigger] m@.contains(y) <==> (old(m)@.contains(y) || xs@.subrange(0, i as int).contains(y)),
    {
        let ghost pre = xs@.subrange(0, i as int);
        add_to_sorted(m, xs[i]);
        proof {
            let post = xs@.subrange(0, i + 1);
            assert(post == pre.push(xs@[i as int]));
            assert forall|y: u32| #[trigger] post.contains(y) <==> (pre.contains(y) || y == xs@[i as int]) by {
                if post.contains(y) {
                    let k = choose|k: int| 0 <= k < post.len() && post[k] == y;
                    if k < pre.len() {
                        assert(pre[k] == y);
                    }
                }
                if pre.contains(y) {
                    let k = choose|k: int| 0 <= k < pre.len() && pre[k] == y;
                    assert(post[k] == y);
                }
                if y == xs@[i as int] {
                    assert(post[i as int] == y);
                }
            }
        }
    }
    assert(xs@.subrange(0, xs@.len() as int) =~= xs@);
}

impl ExprSet {
    /// What a union of the distinct operands `m` comes to.
    pub open spec fn or_outcome(self, m: Seq<u32>, nullable: bool, fin: ExprSet, r: u32) -> bool {
        if m.len() == 0 {
            r == ExprRef::NO_MATCH_ID
        } else if m.len() == 1 {
            r == m[0]
        } else {
            fin.entry(r) == seq![(if nullable { 256u32 } else { 0u32 }) | 9u32] + m
        }
    }

    /// The union of `f` comes to `r` in `fin`: `bl` are its distinct byte
    /// operands, merged into `b` when there are two or more, and `m` the
    /// distinct operands of the result.
    pub open spec fn or_shape(self, f: Seq<u32>, fin: ExprSet, r: u32, bl: Seq<u32>, b: u32, m: Seq<u32>) -> bool {
        &&& increasing(bl)
        &&& forall|y: u32| #[trigger] bl.contains(y) <==> (self.or_candidate(f, y) && self.is_byte_node(y))
        &&& bl.len() >= 2 ==> self.merged_bytes(fin, bl, b)
        &&& increasing(m)
        &&& forall|y: u32| #[trigger] m.contains(y) <==> self.or_member(f, y, bl.len() >= 2, b)
        &&& self.or_outcome(m, self.any_nullable(f), fin, r)
    }

    /// The union of `args`. Nested unions are flattened, operands sorted by
    /// id, repeated ones and "no match" dropped; two or more byte operands
    /// become one byte set, and of the lookaheads of one expression only the
    /// one at the smallest offset stays.
    pub fn mk_or(&mut self, args: Vec<ExprRef>) -> (r: ExprRef)
        requires
            old(self).wf(),
            old(self).room(2),
            old(self).all_valid(ref_ids(args@)),
        ensures
            old(self).grows_to(*final(self)),
            final(self).entries().len() <= old(self).entries().len() + 2,
            final(self).valid_ref(r.id()),
            ({
                let f = old(self).flat(9, ref_ids(args@));
                if f.contains(ExprRef::ANY_STRING_ID) {
                    r.id() == ExprRef::ANY_STRING_ID
                } else {
                    exists|bl: Seq<u32>, b: u32, m: Seq<u32>| old(self).or_shape(f, *final(self), r.id(), bl, b, m)
                }
            }),
    {
        let flat = self.flatten_tag(ExprTag::Or, args);
        let ids = ids_of(&flat);
        let sorted = sorted_unique(&ids);
        let ghost f = self.flat(9, ref_ids(args@));
        proof {
            self.lemma_valid_members(ids@, sorted@);
            assert forall|y: u32| #[trigger] sorted@.contains(y) <==> f.contains(y) by {}
        }
        let split = self.split_or_members(&sorted);
        match split {
            None => {
                proof {
                    assert(sorted@.contains(ExprRef::ANY_STRING_ID));
                    assert(f.contains(ExprRef::ANY_STRING_ID));
                    assert(f == old(self).flat(9, ref_ids(args@)));
                }
                ExprRef(ExprRef::ANY_STRING_ID)
            },
            Some((rest, bl, ll, nullable)) => {
                let ghost o = *self;
                proof {
                    assert(o == *old(self));
                    assert(!f.contains(ExprRef::ANY_STRING_ID));
                    assert forall|y: u32| self.or_candidate(sorted@, y) == self.or_candidate(f, y) by {}
                    assert(nullable == self.any_nullable(f)) by {
                        if nullable {
                            let y = choose|y: u32| self.or_candidate(sorted@, y) && self.nullable(y);
                            assert(self.or_candidate(f, y));
                        }
                        if self.any_nullable(f) {
                            let y = choose|y: u32| self.or_candidate(f, y) && self.nullable(y);
                            assert(self.or_candidate(sorted@, y));
                        }
                    }
                    assert forall|k: int| 0 <= k < ll@.len() implies self.is_lookahead(#[trigger] ll@[k]) by {
                        assert(ll@.contains(ll@[k]));
                    }
                    assert forall|k: int| 0 <= k < bl@.len() implies self.is_byte_node(#[trigger] bl@[k]) by {
                        assert(bl@.contains(bl@[k]));
                    }
                }
                let picked = self.pick_lookaheads(&ll);
                proof {
                    assert forall|y: u32| #[trigger] picked@.contains(y) <==> o.lookahead_kept(f, y) by {
                        if picked@.contains(y) {
                            assert(ll@.contains(y));
                            if exists|z: u32|
                                o.or_candidate(f, z) && o.is_lookahead(z) && o.entry(z)[1] == o.entry(y)[1]
                                    && o.entry(z)[2] < o.entry(y)[2] {
                                let z = choose|z: u32|
                                    o.or_candidate(f, z) && o.is_lookahead(z) && o.entry(z)[1] == o.entry(y)[1]
                                        && o.entry(z)[2] < o.entry(y)[2];
                                assert(o.or_candidate(sorted@, z));
                                assert(ll@.contains(z));
                            }
                        }
                        if o.lookahead_kept(f, y) {
                            assert(o.or_candidate(sorted@, y));
                            assert(ll@.contains(y));
                            if exists|z: u32|
                                ll@.contains(z) && o.entry(z)[1] == o.entry(y)[1] && o.entry(z)[2] < o.entry(y)[2] {
                                let z = choose|z: u32|
                                    ll@.contains(z) && o.entry(z)[1] == o.entry(y)[1] && o.entry(z)[2] < o.entry(y)[2];
                                assert(o.or_candidate(f, z) && o.is_lookahead(z));
                            }
                        }
                    }
                }
                let mut m = rest;
                let mut b: u32 = 0;
                let merged = bl.len() >= 2;
                if merged {
                    let br = self.merge_bytes(&bl);
                    b = br.0;
                    add_to_sorted(&mut m, b);
                } else {
                    add_all_sorted(&mut m, &bl);
                }
                add_all_sorted(&mut m, &picked);
                proof {
                    assert forall|y: u32| #[trigger] m@.contains(y) <==> o.or_member(f, y, merged, b) by {
                        if rest@.contains(y) {
                            assert(o.or_candidate(sorted@, y));
                        }
                        if o.or_candidate(f, y) {
                            assert(o.or_candidate(sorted@, y));
                        }
                    }
                    assert forall|k: int| 0 <= k < m@.len() implies self.valid_ref(#[trigger] m@[k]) by {
                        let y = m@[k];
                        assert(m@.contains(y));
                        if rest@.contains(y) {
                            let j = choose|j: int| 0 <= j < rest@.len() && rest@[j] == y;
                            assert(o.valid_ref(rest@[j]));
                        } else if !merged && bl@.contains(y) {
                            let j = choose|j: int| 0 <= j < bl@.len() && bl@[j] == y;
                            assert(o.valid_ref(bl@[j]));
                        } else if picked@.contains(y) {
                            let j = choose|j: int| 0 <= j < picked@.len() && picked@[j] == y;
                            assert(o.valid_ref(picked@[j]));
                        } else {
                            assert(merged && y == b);
                        }
                    }
                }
                let r = if m.len() == 0 {
                    ExprRef(ExprRef::NO_MATCH_ID)
                } else if m.len() == 1 {
                    assert(self.valid_ref(m@[0]));
                    ExprRef(m[0])
                } else {
                    let flags = ExprFlags::from_nullable(nullable);
                    proof {
                        assert forall|k: int| 0 <= k < m@.len() implies #[trigger] m@[k] != 0 by {
                            assert(self.valid_ref(m@[k]));
                        }
                    }
                    let refs = refs_from(m.as_slice(), 0);
                    proof {
                        assert(m@.subrange(0, m@.len() as int) =~= m@);
                        lemma_head(flags.bits(), 9);
                        assert(Expr::Or(flags, refs).encoding() =~= seq![flags.bits() | 9u32] + m@);
                        assert(refs_below(Expr::Or(flags, refs).encoding(), 1, self.entries().len() as int)) by {
                            let enc = Expr::Or(flags, refs).encoding();
                            assert forall|k: int| 1 <= k < enc.len() implies 0 < #[trigger] enc[k] < self.entries().len() by {
                                assert(enc[k] == m@[k - 1]);
                                assert(self.valid_ref(m@[k - 1]));
                            }
                        }
                    }
                    self.mk(Expr::Or(flags, refs))
                };
                proof {
                    assert(increasing(bl@) && (forall|y: u32| #[trigger] bl@.contains(y) <==> (o.or_candidate(f, y)
                        && o.is_byte_node(y)))) by {
                        assert forall|y: u32| #[trigger] bl@.contains(y) <==> (o.or_candidate(f, y)
                            && o.is_byte_node(y)) by {
                            if o.or_candidate(f, y) {
                                assert(o.or_candidate(sorted@, y));
                            }
                        }
                    }
                    assert(o.or_outcome(m@, o.any_nullable(f), *final(self), r.id()));
                    assert(merged ==> o.merged_bytes(*final(self), bl@, b));
                    let mm = m@;
                    let bb = bl@;
                    assert(o.or_shape(f, *final(self), r.id(), bb, b, mm));
                }
                r
            },
        }
    }
}

impl ExprSet {
    /// The offset of `e` when it is a lookahead of the empty string.
    pub open spec fn lookahead_of_empty(self, e: u32) -> Option<u32> {
        if self.tag(e) == 5 && self.entry(e)[1] == ExprRef::EMPTY_STRING_ID {
            Some(self.entry(e)[2])
        } else {
            None
        }
    }

    fn lookahead_len_inner(&self, e: ExprRef) -> (r: Option<usize>)
        requires
            self.wf(),
            self.valid_ref(e.id()),
        ensures
            r == match self.lookahead_of_empty(e.id()) {
                Some(n) => Some(n as usize),
                None => None::<usize>,
            },
    {
        let ghost es = self.entries();
        proof {
            assert(valid_entry(es[e.id() as int], e.id() as int, self.words() as int));
        }
        let s = self.exprs[e.0 as usize].as_slice();
        if self.get_tag(e) == ExprTag::Lookahead && s[1] == ExprRef::EMPTY_STRING_ID {
            Some(s[2] as usize)
        } else {
            None
        }
    }

    /// The smallest offset of a lookahead of the empty string that `e` is, or
    /// that is an operand of the union `e`.
    pub fn lookahead_len(&self, e: ExprRef) -> (r: Option<usize>)
        requires
            self.wf(),
            self.valid_ref(e.id()),
        ensures
            self.tag(e.id()) != 9 ==> r == match self.lookahead_of_empty(e.id()) {
                Some(n) => Some(n as usize),
                None => None::<usize>,
            },
            self.tag(e.id()) == 9 ==> match r {
                None => forall|k: int|
                    0 <= k < self.args(e.id()).len() ==> self.lookahead_of_empty(#[trigger] self.args(e.id())[k]) is None,
                Some(v) => (exists|k: int|
                    0 <= k < self.args(e.id()).len() && self.lookahead_of_empty(#[trigger] self.args(e.id())[k]) == Some(
                        v as u32,
                    )) && forall|k: int|
                    0 <= k < self.args(e.id()).len() ==> match self.lookahead_of_empty(#[trigger] self.args(e.id())[k]) {
                        Some(w) => v <= w,
                        None => true,
                    },
            },
    {
        if self.get_tag(e) != ExprTag::Or {
            return self.lookahead_len_inner(e);
        }
        let args = self.get_args(e);
        let ghost a = self.args(e.id());
        let mut best: Option<usize> = None;
        for i in 0..args.len()
            invariant
                self.wf(),
                ref_ids(args@) == a,
                forall|k: int| 0 <= k < args@.len() ==> self.valid_ref(#[trigger] args@[k].id()),
                match best {
                    None => forall|k: int| 0 <= k < i ==> self.lookahead_of_empty(#[trigger] a[k]) is None,
                    Some(v) => (exists|k: int| 0 <= k < i && self.lookahead_of_empty(#[trigger] a[k]) == Some(v as u32))
                        && forall|k: int|
                        0 <= k < i ==> match self.lookahead_of_empty(#[trigger] a[k]) {
                            Some(w) => v <= w,
                            None => true,
                        },
                },
        {
            assert(a[i as int] == args@[i as int].id());
            match self.lookahead_len_inner(args[i]) {
                Some(n) => {
                    match best {
                        Some(v) => {
                            if n < v {
                                best = Some(n);
                            }
                        },
                        None => {
                            best = Some(n);
                        },
                    }
                },
                None => {},
            }
        }
        best
    }
}

/// The number of words stored in `s`.
pub open spec fn stored_words(s: Seq<Seq<u32>>) -> nat
    decreases s.len(),
{
    if s.len() == 0 {
        0
    } else {
        stored_words(s.drop_last()) + s.last().len()
    }
}

proof fn lemma_stored_words_prefix(s: Seq<Seq<u32>>, i: int)
    requires
        0 <= i <= s.len(),
    ensures
        stored_words(s.subrange(0, i)) <= stored_words(s),
    decreases s.len() - i,
{
    if i < s.len() {
        lemma_stored_words_prefix(s, i + 1);
        assert(s.subrange(0, i + 1).drop_last() =~= s.subrange(0, i));
    } else {
        assert(s.subrange(0, i) =~= s);
    }
}

impl ExprSet {
    /// The size in bytes of the stored expressions.
    pub fn bytes(&self) -> (r: usize)
        requires
            self.wf(),
            4 * stored_words(self.entries()) <= usize::MAX,
        ensures
            r == 4 * stored_words(self.entries()),
    {
        let ghost es = self.entries();
        let mut total: usize = 0;
        let mut i: usize = 0;
        while i < self.exprs.len()
            invariant
                es == self.entries(),
                4 * stored_words(es) <= usize::MAX,
                0 <= i <= es.len(),
                total == stored_words(es.subrange(0, i as int)),
            decreases es.len() - i,
        {
            proof {
                lemma_stored_words_prefix(es, i + 1);
                assert(es.subrange(0, i + 1).drop_last() =~= es.subrange(0, i as int));
                assert(es[i as int] == self.exprs@[i as int]@);
            }
            total = total + self.exprs[i].len();
            i = i + 1;
        }
        proof {
            assert(es.subrange(0, es.len() as int) =~= es);
        }
        4 * total
    }
}

} // verus!
