//! Ordering of display names, by the locale's sort keys or byte by byte.
use std::cmp::Ordering;
use vstd::prelude::*;
use vstd::string::StringSliceAdditionalSpecFns;
use vstd::utf8::encode_utf8;

verus! {

/// Whether key `a` sorts strictly before key `b`: lexicographic order on bytes,
/// where a proper prefix sorts first.
pub open spec fn key_less(a: Seq<u8>, b: Seq<u8>) -> bool
    decreases a.len(),
{
    if b.len() == 0 {
        false
    } else if a.len() == 0 {
        true
    } else if a[0] != b[0] {
        a[0] < b[0]
    } else {
        key_less(a.drop_first(), b.drop_first())
    }
}

pub proof fn lemma_key_less_irreflexive(a: Seq<u8>)
    ensures
        !key_less(a, a),
    decreases a.len(),
{
    if a.len() > 0 {
        lemma_key_less_irreflexive(a.drop_first());
    }
}

pub proof fn lemma_key_less_transitive(a: Seq<u8>, b: Seq<u8>, c: Seq<u8>)
    requires
        key_less(a, b),
        key_less(b, c),
    ensures
        key_less(a, c),
    decreases a.len(),
{
    if a.len() > 0 && b.len() > 0 && c.len() > 0 && a[0] == b[0] && b[0] == c[0] {
        lemma_key_less_transitive(a.drop_first(), b.drop_first(), c.drop_first());
    }
}

/// Two keys neither of which sorts before the other are equal.
pub proof fn lemma_key_less_total(a: Seq<u8>, b: Seq<u8>)
    requires
        !key_less(a, b),
        !key_less(b, a),
    ensures
        a == b,
    decreases a.len(),
{
    if a.len() > 0 && b.len() > 0 {
        lemma_key_less_total(a.drop_first(), b.drop_first());
        assert(a =~= seq![a[0]] + a.drop_first());
        assert(b =~= seq![b[0]] + b.drop_first());
    } else {
        assert(a =~= b);
    }
}

/// Compares two sort keys byte by byte.
pub fn compare_keys(a: &Vec<u8>, b: &Vec<u8>) -> (r: Ordering)
    ensures
        (r == Ordering::Less) == key_less(a@, b@),
        (r == Ordering::Equal) == (a@ == b@),
        (r == Ordering::Greater) == key_less(b@, a@),
{
    let mut i: usize = 0;
    assert(a@.skip(0) =~= a@);
    assert(b@.skip(0) =~= b@);
    while i < a.len() && i < b.len() && a[i] == b[i]
        invariant
            i <= a@.len(),
            i <= b@.len(),
            a@.take(i as int) == b@.take(i as int),
            key_less(a@.skip(i as int), b@.skip(i as int)) == key_less(a@, b@),
            key_less(b@.skip(i as int), a@.skip(i as int)) == key_less(b@, a@),
        decreases a@.len() - i,
    {
        assert(a@.skip(i as int).drop_first() =~= a@.skip(i + 1));
        assert(b@.skip(i as int).drop_first() =~= b@.skip(i + 1));
        assert(a@.take(i + 1) =~= a@.take(i as int).push(a@[i as int]));
        assert(b@.take(i + 1) =~= b@.take(i as int).push(b@[i as int]));
        i = i + 1;
    }
    proof {
        if a@ == b@ {
            lemma_key_less_irreflexive(a@);
        } else {
            if i == a.len() && i == b.len() {
                assert(a@ =~= a@.take(i as int));
                assert(b@ =~= b@.take(i as int));
            }
        }
    }
    if i < a.len() && i < b.len() {
        if a[i] < b[i] {
            Ordering::Less
        } else {
            Ordering::Greater
        }
    } else if i < b.len() {
        Ordering::Less
    } else if i < a.len() {
        Ordering::Greater
    } else {
        proof {
            assert(a@ =~= a@.take(i as int));
            assert(b@ =~= b@.take(i as int));
        }
        Ordering::Equal
    }
}

/// How display names are ordered for the whole process.
#[derive(Clone, Copy, Debug, PartialEq, Eq, Structural)]
pub enum Collator {
    /// The locale was set up: names sort by the locale's sort keys, which the
    /// platform's collation transform (`strxfrm`) made from them.
    Locale,
    /// The locale could not be set up: names sort by their UTF-8 bytes, which
    /// is the order of their code points.
    ByteWise,
}

/// The key by which a name sorts under `c`, given the locale's key for it.
pub open spec fn sort_key_of(c: Collator, name: Seq<char>, locale_key: Seq<u8>) -> Seq<u8> {
    match c {
        Collator::Locale => locale_key,
        Collator::ByteWise => encode_utf8(name),
    }
}

impl Collator {
    /// The collator that follows from setting up the locale: the locale's
    /// order when that succeeded, else the byte-wise fallback.
    pub fn new(locale_ready: bool) -> (r: Collator)
        ensures
            r == (if locale_ready { Collator::Locale } else { Collator::ByteWise }),
    {
        if locale_ready {
            Collator::Locale
        } else {
            Collator::ByteWise
        }
    }

    /// The key by which `name` sorts, given the locale's key for it.
    pub fn sort_key(&self, name: &String, locale_key: &Vec<u8>) -> (r: Vec<u8>)
        ensures
            r@ == sort_key_of(*self, name@, locale_key@),
    {
        match self {
            Collator::Locale => locale_key.clone(),
            Collator::ByteWise => {
                let bytes = name.as_str().as_bytes();
                vstd::slice::slice_to_vec(bytes)
            },
        }
    }

    /// Compares two names, each given with the locale's key for it.
    pub fn compare(&self, a: &String, a_locale_key: &Vec<u8>, b: &String, b_locale_key: &Vec<u8>) -> (r: Ordering)
        ensures
            (r == Ordering::Less) == key_less(sort_key_of(*self, a@, a_locale_key@), sort_key_of(*self, b@, b_locale_key@)),
            (r == Ordering::Equal) == (sort_key_of(*self, a@, a_locale_key@) == sort_key_of(*self, b@, b_locale_key@)),
            (r == Ordering::Greater) == key_less(sort_key_of(*self, b@, b_locale_key@), sort_key_of(*self, a@, a_locale_key@)),
    {
        let ka = self.sort_key(a, a_locale_key);
        let kb = self.sort_key(b, b_locale_key);
        compare_keys(&ka, &kb)
    }
}

} // verus!
