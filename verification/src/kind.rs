//! JSON value kinds.
use vstd::prelude::*;
use vstd::std_specs::ops::{BitOrSpecImpl, BitAndSpecImpl};
use vstd::std_specs::convert::FromSpecImpl;
use crate::parse::parser::string_push;

verus! {

/// Value kind.
#[derive(Clone, Copy, PartialEq, Eq, Structural, PartialOrd, Ord, Hash, Debug)]
pub enum Kind {
    Null,
    Boolean,
    Number,
    String,
    Array,
    Object,
}

/// The name of a kind.
pub open spec fn kind_name(k: Kind) -> Seq<char> {
    match k {
        Kind::Null => seq!['n', 'u', 'l', 'l'],
        Kind::Boolean => seq!['b', 'o', 'o', 'l', 'e', 'a', 'n'],
        Kind::Number => seq!['n', 'u', 'm', 'b', 'e', 'r'],
        Kind::String => seq!['s', 't', 'r', 'i', 'n', 'g'],
        Kind::Array => seq!['a', 'r', 'r', 'a', 'y'],
        Kind::Object => seq!['o', 'b', 'j', 'e', 'c', 't'],
    }
}

/// The bit of a kind in a [`KindSet`].
pub open spec fn kind_mask(k: Kind) -> u8 {
    match k {
        Kind::Null => 0b000001,
        Kind::Boolean => 0b000010,
        Kind::Number => 0b000100,
        Kind::String => 0b001000,
        Kind::Array => 0b010000,
        Kind::Object => 0b100000,
    }
}

/// The kinds, in order.
pub open spec fn kind_at(i: int) -> Kind {
    if i <= 0 {
        Kind::Null
    } else if i == 1 {
        Kind::Boolean
    } else if i == 2 {
        Kind::Number
    } else if i == 3 {
        Kind::String
    } else if i == 4 {
        Kind::Array
    } else {
        Kind::Object
    }
}

/// The mask `bits` holds the kind `k`.
pub open spec fn has_kind(bits: u8, k: Kind) -> bool {
    bits & kind_mask(k) != 0
}

/// The kinds of the mask `bits` among the first `n` kinds, in order.
pub open spec fn kinds_upto(bits: u8, n: int) -> Seq<Kind>
    decreases n,
{
    if n <= 0 {
        Seq::empty()
    } else {
        kinds_upto(bits, n - 1) + if has_kind(bits, kind_at(n - 1)) {
            seq![kind_at(n - 1)]
        } else {
            Seq::empty()
        }
    }
}

/// The kinds of the mask `bits`, in order.
pub open spec fn kinds_of(bits: u8) -> Seq<Kind> {
    kinds_upto(bits, 6)
}

/// The mask of all kinds.
pub open spec fn all_bits() -> u8 {
    0b111111
}

fn mask_of(k: Kind) -> (r: u8)
    ensures
        r == kind_mask(k),
{
    match k {
        Kind::Null => 0b000001,
        Kind::Boolean => 0b000010,
        Kind::Number => 0b000100,
        Kind::String => 0b001000,
        Kind::Array => 0b010000,
        Kind::Object => 0b100000,
    }
}

fn kind_of_index(i: usize) -> (r: Kind)
    ensures
        r == kind_at(i as int),
{
    if i == 0 {
        Kind::Null
    } else if i == 1 {
        Kind::Boolean
    } else if i == 2 {
        Kind::Number
    } else if i == 3 {
        Kind::String
    } else if i == 4 {
        Kind::Array
    } else {
        Kind::Object
    }
}

/// Appends the characters `cs`.
pub(crate) fn push_all(out: &mut String, cs: &[char])
    ensures
        final(out)@ == old(out)@ + cs@,
{
    let mut i: usize = 0;
    while i < cs.len()
        invariant
            i <= cs@.len(),
            out@ == old(out)@ + cs@.take(i as int),
        decreases cs@.len() - i,
    {
        string_push(out, cs[i]);
        assert(cs@.take(i + 1) =~= cs@.take(i as int).push(cs@[i as int]));
        i = i + 1;
    }
    assert(cs@.take(cs@.len() as int) =~= cs@);
}

impl Kind {
    /// Appends the name of the kind.
    pub(crate) fn write_name(&self, out: &mut String)
        ensures
            final(out)@ == old(out)@ + kind_name(*self),
    {
        match self {
            Kind::Null => {
                let w = ['n', 'u', 'l', 'l'];
                push_all(out, &w);
                assert(w@ =~= kind_name(*self));
            },
            Kind::Boolean => {
                let w = ['b', 'o', 'o', 'l', 'e', 'a', 'n'];
                push_all(out, &w);
                assert(w@ =~= kind_name(*self));
            },
            Kind::Number => {
                let w = ['n', 'u', 'm', 'b', 'e', 'r'];
                push_all(out, &w);
                assert(w@ =~= kind_name(*self));
            },
            Kind::String => {
                let w = ['s', 't', 'r', 'i', 'n', 'g'];
                push_all(out, &w);
                assert(w@ =~= kind_name(*self));
            },
            Kind::Array => {
                let w = ['a', 'r', 'r', 'a', 'y'];
                push_all(out, &w);
                assert(w@ =~= kind_name(*self));
            },
            Kind::Object => {
                let w = ['o', 'b', 'j', 'e', 'c', 't'];
                push_all(out, &w);
                assert(w@ =~= kind_name(*self));
            },
        }
    }

    /// The name of the kind.
    pub fn to_string(&self) -> (r: String)
        ensures
            r@ == kind_name(*self),
    {
        let mut out = String::new();
        self.write_name(&mut out);
        out
    }
}

/// Set of JSON value [`Kind`]s.
#[derive(Debug, Default, Clone, Copy, PartialEq, Eq, Structural, PartialOrd, Ord, Hash)]
pub struct KindSet(pub(crate) u8);

impl KindSet {
    /// Only the bits of the six kinds are set.
    #[verifier::type_invariant]
    spec fn six_kinds(self) -> bool {
        self.0 <= 0b111111
    }

    /// The mask of the kinds of the set.
    pub open(crate) spec fn bits(self) -> u8 {
        self.0
    }

    /// The set of the mask `b`.
    pub open(crate) spec fn of_bits(b: u8) -> KindSet {
        KindSet(b)
    }

    /// The set holds the kind `k`.
    pub open spec fn contains(self, k: Kind) -> bool {
        has_kind(self.bits(), k)
    }

    /// The kinds of the set, in order.
    pub open spec fn kinds(self) -> Seq<Kind> {
        kinds_of(self.bits())
    }

    /// The empty set.
    pub fn none() -> (r: KindSet)
        ensures
            r.bits() == 0,
    {
        KindSet(0)
    }

    /// The set of all kinds.
    pub fn all() -> (r: KindSet)
        ensures
            r.bits() == all_bits(),
    {
        KindSet(0b111111)
    }

    /// The set of the kind `k` alone.
    pub fn single(k: Kind) -> (r: KindSet)
        ensures
            r.bits() == kind_mask(k),
    {
        KindSet(mask_of(k))
    }

    /// Number of kinds in the set.
    pub fn len(&self) -> (r: usize)
        ensures
            r == self.kinds().len(),
    {
        let mut n: usize = 0;
        let mut i: usize = 0;
        while i < 6
            invariant
                i <= 6,
                n == kinds_upto(self.0, i as int).len(),
                n <= i,
            decreases 6 - i,
        {
            if self.0 & mask_of(kind_of_index(i)) != 0 {
                n = n + 1;
            }
            i = i + 1;
        }
        n
    }

    /// The set holds no kind: it has no kinds, and it is the empty set.
    pub fn is_empty(&self) -> (r: bool)
        ensures
            r == (self.bits() == 0),
            r == (self.kinds().len() == 0),
    {
        proof {
            use_type_invariant(self);
            lemma_no_kinds(self.0);
        }
        self.0 == 0
    }

    /// The kinds of the set, in order.
    pub fn iter(&self) -> (r: Vec<Kind>)
        ensures
            r@ == self.kinds(),
    {
        let mut v: Vec<Kind> = Vec::new();
        let mut i: usize = 0;
        while i < 6
            invariant
                i <= 6,
                v@ == kinds_upto(self.0, i as int),
            decreases 6 - i,
        {
            let k = kind_of_index(i);
            if self.0 & mask_of(k) != 0 {
                v.push(k);
            }
            i = i + 1;
        }
        v
    }

    /// The kinds of the set, separated by commas.
    pub fn to_string(&self) -> (r: String)
        ensures
            r@ == comma_list(self.kinds()),
    {
        let kinds = self.iter();
        let mut out = String::new();
        let mut i: usize = 0;
        while i < kinds.len()
            invariant
                i <= kinds@.len(),
                out@ == comma_list(kinds@.take(i as int)),
            decreases kinds@.len() - i,
        {
            if i > 0 {
                push_all(&mut out, &[',', ' ']);
                assert([',', ' ']@ =~= seq![',', ' ']);
            }
            kinds[i].write_name(&mut out);
            proof {
                assert(kinds@.take(i + 1).drop_last() =~= kinds@.take(i as int));
            }
            i = i + 1;
        }
        proof {
            assert(kinds@.take(kinds@.len() as int) =~= kinds@);
        }
        out
    }

    /// Displays this set as a disjunction.
    pub fn as_disjunction(self) -> (r: KindSetDisjunction)
        ensures
            r.0 == self,
    {
        KindSetDisjunction(self)
    }

    /// Displays this set as a conjunction.
    pub fn as_conjunction(self) -> (r: KindSetConjunction)
        ensures
            r.0 == self,
    {
        KindSetConjunction(self)
    }

    /// The kinds of both sets.
    pub fn union(self, other: KindSet) -> (r: KindSet)
        ensures
            r.bits() == self.bits() | other.bits(),
            forall|k: Kind| r.contains(k) <==> self.contains(k) || other.contains(k),
    {
        proof {
            use_type_invariant(&self);
            use_type_invariant(&other);
            lemma_six_bits(self.0, other.0);
            assert forall|k: Kind| has_kind(self.0 | other.0, k) <==> has_kind(self.0, k)
                || has_kind(other.0, k) by {
                lemma_or_mask(self.0, other.0, kind_mask(k));
            }
        }
        KindSet(self.0 | other.0)
    }

    /// The kinds common to both sets.
    pub fn intersection(self, other: KindSet) -> (r: KindSet)
        ensures
            r.bits() == self.bits() & other.bits(),
            forall|k: Kind| r.contains(k) <==> self.contains(k) && other.contains(k),
    {
        proof {
            use_type_invariant(&self);
            use_type_invariant(&other);
            lemma_six_bits(self.0, other.0);
            assert forall|k: Kind| has_kind(self.0 & other.0, k) <==> has_kind(self.0, k)
                && has_kind(other.0, k) by {
                lemma_and_mask(self.0, other.0, kind_mask(k), k);
            }
        }
        KindSet(self.0 & other.0)
    }
}

proof fn lemma_six_bits(a: u8, b: u8)
    requires
        a <= 0b111111,
        b <= 0b111111,
    ensures
        a | b <= 0b111111,
        a & b <= 0b111111,
{
    assert(a | b <= 0b111111 && a & b <= 0b111111) by (bit_vector)
        requires
            a <= 0b111111,
            b <= 0b111111,
    ;
}

/// A mask of the six kinds has no kinds only where it is zero.
proof fn lemma_no_kinds(b: u8)
    requires
        b <= 0b111111,
    ensures
        (kinds_of(b).len() == 0) <==> (b == 0),
{
    reveal_with_fuel(kinds_upto, 7);
    assert((b == 0) <==> (b & 1 == 0 && b & 2 == 0 && b & 4 == 0 && b & 8 == 0 && b & 16 == 0
        && b & 32 == 0)) by (bit_vector)
        requires
            b <= 0b111111,
    ;
    assert(kind_at(0) == Kind::Null && kind_at(1) == Kind::Boolean && kind_at(2) == Kind::Number
        && kind_at(3) == Kind::String && kind_at(4) == Kind::Array && kind_at(5) == Kind::Object);
}

proof fn lemma_or_mask(a: u8, b: u8, m: u8)
    ensures
        ((a | b) & m != 0) <==> (a & m != 0 || b & m != 0),
{
    assert(((a | b) & m != 0) <==> (a & m != 0 || b & m != 0)) by (bit_vector);
}

proof fn lemma_and_mask(a: u8, b: u8, m: u8, k: Kind)
    requires
        m == kind_mask(k),
    ensures
        ((a & b) & m != 0) <==> (a & m != 0 && b & m != 0),
{
    if m == 1 {
        assert(((a & b) & 1 != 0) <==> (a & 1 != 0 && b & 1 != 0)) by (bit_vector);
    } else if m == 2 {
        assert(((a & b) & 2 != 0) <==> (a & 2 != 0 && b & 2 != 0)) by (bit_vector);
    } else if m == 4 {
        assert(((a & b) & 4 != 0) <==> (a & 4 != 0 && b & 4 != 0)) by (bit_vector);
    } else if m == 8 {
        assert(((a & b) & 8 != 0) <==> (a & 8 != 0 && b & 8 != 0)) by (bit_vector);
    } else if m == 16 {
        assert(((a & b) & 16 != 0) <==> (a & 16 != 0 && b & 16 != 0)) by (bit_vector);
    } else {
        assert(((a & b) & 32 != 0) <==> (a & 32 != 0 && b & 32 != 0)) by (bit_vector);
    }
}

/// The names of the kinds `ks`, separated by commas.
pub open spec fn comma_list(ks: Seq<Kind>) -> Seq<char>
    decreases ks.len(),
{
    if ks.len() == 0 {
        Seq::empty()
    } else if ks.len() == 1 {
        kind_name(ks[0])
    } else {
        comma_list(ks.drop_last()) + seq![',', ' '] + kind_name(ks.last())
    }
}

/// The names of the kinds `ks` as a list ending with the word `word`:
/// "nothing" when there is no kind.
pub open spec fn word_list(ks: Seq<Kind>, word: Seq<char>) -> Seq<char> {
    if ks.len() == 0 {
        seq!['n', 'o', 't', 'h', 'i', 'n', 'g']
    } else if ks.len() == 1 {
        kind_name(ks[0])
    } else {
        comma_list(ks.drop_last()) + seq![' '] + word + seq![' '] + kind_name(ks.last())
    }
}

/// The text of a kind set listed with the word `word`: "anything" for all
/// kinds.
pub open spec fn kind_set_text(s: KindSet, word: Seq<char>) -> Seq<char> {
    if s.bits() == all_bits() {
        seq!['a', 'n', 'y', 't', 'h', 'i', 'n', 'g']
    } else {
        word_list(s.kinds(), word)
    }
}

/// Appends the kinds of `s`, listed with `word`.
pub(crate) fn write_listing(s: KindSet, word: &[char], out: &mut String)
    ensures
        final(out)@ == old(out)@ + kind_set_text(s, word@),
{
    if s.0 == 0b111111 {
        let w = ['a', 'n', 'y', 't', 'h', 'i', 'n', 'g'];
        push_all(out, &w);
        assert(w@ =~= seq!['a', 'n', 'y', 't', 'h', 'i', 'n', 'g']);
        return ;
    }
    let kinds = s.iter();
    let n = kinds.len();
    if n == 0 {
        let w = ['n', 'o', 't', 'h', 'i', 'n', 'g'];
        push_all(out, &w);
        assert(w@ =~= seq!['n', 'o', 't', 'h', 'i', 'n', 'g']);
        return ;
    }
    let ghost base = out@;
    let mut i: usize = 0;
    while i + 1 < n
        invariant
            n == kinds@.len(),
            n >= 1,
            i + 1 <= n,
            out@ == base + comma_list(kinds@.take(i as int)),
        decreases n - i,
    {
        if i > 0 {
            push_all(out, &[',', ' ']);
            assert([',', ' ']@ =~= seq![',', ' ']);
        }
        kinds[i].write_name(out);
        proof {
            assert(kinds@.take(i + 1).drop_last() =~= kinds@.take(i as int));
        }
        i = i + 1;
    }
    if n > 1 {
        string_push(out, ' ');
        push_all(out, word);
        string_push(out, ' ');
    }
    kinds[n - 1].write_name(out);
    proof {
        assert(kinds@.drop_last() =~= kinds@.take(n - 1));
        assert(out@ =~= base + kind_set_text(s, word@));
    }
}

/// Displays a `KindSet` as a disjunction.
#[derive(Debug, Default, Clone, Copy, PartialEq, Eq, Structural, PartialOrd, Ord, Hash)]
pub struct KindSetDisjunction(pub KindSet);

impl KindSetDisjunction {
    /// The kinds, separated by commas, the last one by "or".
    pub fn to_string(&self) -> (r: String)
        ensures
            r@ == kind_set_text(self.0, seq!['o', 'r']),
    {
        let mut out = String::new();
        let w = ['o', 'r'];
        assert(w@ =~= seq!['o', 'r']);
        write_listing(self.0, &w, &mut out);
        out
    }
}

/// Displays a `KindSet` as a conjunction.
#[derive(Debug, Default, Clone, Copy, PartialEq, Eq, Structural, PartialOrd, Ord, Hash)]
pub struct KindSetConjunction(pub KindSet);

impl KindSetConjunction {
    /// The kinds, separated by commas, the last one by "and".
    pub fn to_string(&self) -> (r: String)
        ensures
            r@ == kind_set_text(self.0, seq!['a', 'n', 'd']),
    {
        let mut out = String::new();
        let w = ['a', 'n', 'd'];
        assert(w@ =~= seq!['a', 'n', 'd']);
        write_listing(self.0, &w, &mut out);
        out
    }
}

impl From<Kind> for KindSet {
    fn from(value: Kind) -> (r: KindSet) {
        KindSet(mask_of(value))
    }
}

impl FromSpecImpl<Kind> for KindSet {
    open spec fn obeys_from_spec() -> bool {
        true
    }

    open spec fn from_spec(value: Kind) -> KindSet {
        KindSet::of_bits(kind_mask(value))
    }
}

impl std::ops::BitOr for KindSet {
    type Output = KindSet;

    fn bitor(self, other: KindSet) -> (r: KindSet) {
        proof {
            use_type_invariant(&self);
            use_type_invariant(&other);
            lemma_six_bits(self.0, other.0);
        }
        KindSet(self.0 | other.0)
    }
}

impl BitOrSpecImpl for KindSet {
    open spec fn obeys_bitor_spec() -> bool {
        true
    }

    open spec fn bitor_req(self, other: KindSet) -> bool {
        true
    }

    open spec fn bitor_spec(self, other: KindSet) -> KindSet {
        KindSet::of_bits(self.bits() | other.bits())
    }
}

impl std::ops::BitAnd for KindSet {
    type Output = KindSet;

    fn bitand(self, other: KindSet) -> (r: KindSet) {
        proof {
            use_type_invariant(&self);
            use_type_invariant(&other);
            lemma_six_bits(self.0, other.0);
        }
        KindSet(self.0 & other.0)
    }
}

impl BitAndSpecImpl for KindSet {
    open spec fn obeys_bitand_spec() -> bool {
        true
    }

    open spec fn bitand_req(self, other: KindSet) -> bool {
        true
    }

    open spec fn bitand_spec(self, other: KindSet) -> KindSet {
        KindSet::of_bits(self.bits() & other.bits())
    }
}

impl std::ops::BitOr<Kind> for KindSet {
    type Output = KindSet;

    fn bitor(self, other: Kind) -> (r: KindSet) {
        proof {
            use_type_invariant(&self);
            lemma_six_bits(self.0, kind_mask(other));
        }
        KindSet(self.0 | mask_of(other))
    }
}

impl BitOrSpecImpl<Kind> for KindSet {
    open spec fn obeys_bitor_spec() -> bool {
        true
    }

    open spec fn bitor_req(self, other: Kind) -> bool {
        true
    }

    open spec fn bitor_spec(self, other: Kind) -> KindSet {
        KindSet::of_bits(self.bits() | kind_mask(other))
    }
}

impl std::ops::BitAnd<Kind> for KindSet {
    type Output = KindSet;

    fn bitand(self, other: Kind) -> (r: KindSet) {
        proof {
            use_type_invariant(&self);
            lemma_six_bits(self.0, kind_mask(other));
        }
        KindSet(self.0 & mask_of(other))
    }
}

impl BitAndSpecImpl<Kind> for KindSet {
    open spec fn obeys_bitand_spec() -> bool {
        true
    }

    open spec fn bitand_req(self, other: Kind) -> bool {
        true
    }

    open spec fn bitand_spec(self, other: Kind) -> KindSet {
        KindSet::of_bits(self.bits() & kind_mask(other))
    }
}

impl std::ops::BitOr for Kind {
    type Output = KindSet;

    fn bitor(self, other: Kind) -> (r: KindSet) {
        proof {
            lemma_six_bits(kind_mask(self), kind_mask(other));
        }
        KindSet(mask_of(self) | mask_of(other))
    }
}

impl BitOrSpecImpl for Kind {
    open spec fn obeys_bitor_spec() -> bool {
        true
    }

    open spec fn bitor_req(self, other: Kind) -> bool {
        true
    }

    open spec fn bitor_spec(self, other: Kind) -> KindSet {
        KindSet::of_bits(kind_mask(self) | kind_mask(other))
    }
}

impl std::ops::BitOr<KindSet> for Kind {
    type Output = KindSet;

    fn bitor(self, other: KindSet) -> (r: KindSet) {
        proof {
            use_type_invariant(&other);
            lemma_six_bits(kind_mask(self), other.0);
        }
        KindSet(mask_of(self) | other.0)
    }
}

impl BitOrSpecImpl<KindSet> for Kind {
    open spec fn obeys_bitor_spec() -> bool {
        true
    }

    open spec fn bitor_req(self, other: KindSet) -> bool {
        true
    }

    open spec fn bitor_spec(self, other: KindSet) -> KindSet {
        KindSet::of_bits(kind_mask(self) | other.bits())
    }
}

impl std::ops::BitAnd for Kind {
    type Output = KindSet;

    fn bitand(self, other: Kind) -> (r: KindSet) {
        proof {
            lemma_six_bits(kind_mask(self), kind_mask(other));
        }
        KindSet(mask_of(self) & mask_of(other))
    }
}

impl BitAndSpecImpl for Kind {
    open spec fn obeys_bitand_spec() -> bool {
        true
    }

    open spec fn bitand_req(self, other: Kind) -> bool {
        true
    }

    open spec fn bitand_spec(self, other: Kind) -> KindSet {
        KindSet::of_bits(kind_mask(self) & kind_mask(other))
    }
}

impl std::ops::BitAnd<KindSet> for Kind {
    type Output = KindSet;

    fn bitand(self, other: KindSet) -> (r: KindSet) {
        proof {
            use_type_invariant(&other);
            lemma_six_bits(kind_mask(self), other.0);
        }
        KindSet(mask_of(self) & other.0)
    }
}

impl BitAndSpecImpl<KindSet> for Kind {
    open spec fn obeys_bitand_spec() -> bool {
        true
    }

    open spec fn bitand_req(self, other: KindSet) -> bool {
        true
    }

    open spec fn bitand_spec(self, other: KindSet) -> KindSet {
        KindSet::of_bits(kind_mask(self) & other.bits())
    }
}

} // verus!
