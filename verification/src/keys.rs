//! Paths as keys: the order in which paths are listed, and the range of
//! keys that a listing request selects.
//!
//! Keys are ordered lexicographically by their characters, each character
//! by its scalar value. For valid UTF-8 this is the same order as the byte
//! order in which `String`s compare.

use vstd::prelude::*;

verus! {

/// `a` comes strictly before `b`.
pub open spec fn key_lt(a: Seq<char>, b: Seq<char>) -> bool
    decreases a.len(),
{
    if a.len() == 0 {
        b.len() > 0
    } else if b.len() == 0 {
        false
    } else if a[0] != b[0] {
        a[0] < b[0]
    } else {
        key_lt(a.drop_first(), b.drop_first())
    }
}

/// `a` comes before `b` or is `b`.
pub open spec fn key_le(a: Seq<char>, b: Seq<char>) -> bool {
    key_lt(a, b) || a == b
}

/// The character that closes the range of a listing: `~`.
pub open spec fn range_end_char() -> char {
    '~'
}

/// A listing for `from` selects the keys `k` with `from <= k <= from + "~"`.
pub open spec fn in_list_range(from: Seq<char>, k: Seq<char>) -> bool {
    key_le(from, k) && key_le(k, from.push(range_end_char()))
}

/// No key comes before itself.
pub proof fn lemma_key_lt_irreflexive(a: Seq<char>)
    ensures
        !key_lt(a, a),
    decreases a.len(),
{
    if a.len() > 0 {
        lemma_key_lt_irreflexive(a.drop_first());
    }
}

/// Of two different keys, exactly one comes before the other.
pub proof fn lemma_key_lt_total(a: Seq<char>, b: Seq<char>)
    ensures
        a != b ==> (key_lt(a, b) || key_lt(b, a)),
        !(key_lt(a, b) && key_lt(b, a)),
    decreases a.len(),
{
    if a.len() > 0 && b.len() > 0 && a[0] == b[0] {
        lemma_key_lt_total(a.drop_first(), b.drop_first());
        if a.drop_first() == b.drop_first() {
            assert(a =~= seq![a[0]] + a.drop_first());
            assert(b =~= seq![b[0]] + b.drop_first());
        }
    } else if a.len() == 0 && b.len() == 0 {
        assert(a =~= b);
    }
}

/// The order is transitive.
pub proof fn lemma_key_lt_transitive(a: Seq<char>, b: Seq<char>, c: Seq<char>)
    requires
        key_lt(a, b),
        key_lt(b, c),
    ensures
        key_lt(a, c),
    decreases a.len(),
{
    if a.len() > 0 && b.len() > 0 && c.len() > 0 && a[0] == b[0] && b[0] == c[0] {
        lemma_key_lt_transitive(a.drop_first(), b.drop_first(), c.drop_first());
    }
}

/// `key_le` is transitive, and mixes with `key_lt`.
pub proof fn lemma_key_le_transitive(a: Seq<char>, b: Seq<char>, c: Seq<char>)
    requires
        key_le(a, b),
        key_le(b, c),
    ensures
        key_le(a, c),
        key_lt(a, b) ==> key_lt(a, c),
        key_lt(b, c) ==> key_lt(a, c),
{
    if key_lt(a, b) && key_lt(b, c) {
        lemma_key_lt_transitive(a, b, c);
    }
}

/// Every key that a listing for `from` selects starts with `from`.
pub proof fn lemma_list_range_has_prefix(from: Seq<char>, k: Seq<char>)
    requires
        in_list_range(from, k),
    ensures
        from.len() <= k.len(),
        k.subrange(0, from.len() as int) == from,
    decreases from.len(),
{
    let hi = from.push(range_end_char());
    if from.len() == 0 {
        assert(k.subrange(0, 0) =~= from);
    } else {
        if k == from {
            assert(k.subrange(0, from.len() as int) =~= from);
        } else if k.len() == 0 {
            assert(false);
        } else {
            // from < k, so the first characters agree or from's is smaller
            assert(hi[0] == from[0]);
            if from[0] != k[0] {
                assert(false);
            }
            assert(hi.drop_first() =~= from.drop_first().push(range_end_char()));
            lemma_list_range_has_prefix(from.drop_first(), k.drop_first());
            assert(k.subrange(0, from.len() as int) =~= seq![k[0]] + k.drop_first().subrange(
                0,
                from.drop_first().len() as int,
            ));
            assert(from =~= seq![from[0]] + from.drop_first());
        }
    }
}

/// A common prefix does not change which of two keys comes first.
pub proof fn lemma_key_lt_common_prefix(p: Seq<char>, a: Seq<char>, b: Seq<char>)
    ensures
        key_lt(p + a, p + b) == key_lt(a, b),
    decreases p.len(),
{
    if p.len() == 0 {
        assert(p + a =~= a);
        assert(p + b =~= b);
    } else {
        assert((p + a)[0] == p[0]);
        assert((p + b)[0] == p[0]);
        assert((p + a).drop_first() =~= p.drop_first() + a);
        assert((p + b).drop_first() =~= p.drop_first() + b);
        lemma_key_lt_common_prefix(p.drop_first(), a, b);
    }
}

/// A listing for `from` selects `from` itself, and `from` followed by one
/// character exactly when that character is at most `~`; it selects
/// nothing that continues `from + "~"`.
pub proof fn lemma_list_range_ends_at_tilde(from: Seq<char>, c: char, rest: Seq<char>)
    ensures
        in_list_range(from, from),
        in_list_range(from, from.push(c)) == (c <= '~'),
        rest.len() > 0 ==> !in_list_range(from, from.push('~') + rest),
{
    let e = Seq::<char>::empty();
    assert(from + e =~= from);
    assert(from + seq!['~'] =~= from.push('~'));
    assert(from + seq![c] =~= from.push(c));
    lemma_key_lt_common_prefix(from, e, seq!['~']);
    lemma_key_lt_common_prefix(from, e, seq![c]);
    lemma_key_lt_common_prefix(from, seq![c], seq!['~']);
    assert(seq![c].drop_first() =~= e);
    assert(seq!['~'].drop_first() =~= e);
    if c != '~' {
        assert(from.push(c) != from.push('~')) by {
            assert(from.push(c)[from.len() as int] != from.push('~')[from.len() as int]);
        }
    }
    if rest.len() > 0 {
        let t = seq!['~'] + rest;
        assert(from.push('~') + rest =~= from + t);
        lemma_key_lt_common_prefix(from, t, seq!['~']);
        assert(t[0] == '~');
        assert(t.drop_first() =~= rest);
        assert(!key_lt(rest, e));
        assert(!key_lt(t, seq!['~']));
        assert(from + t != from.push('~')) by {
            assert((from + t).len() != from.push('~').len());
        }
    }
}

/// The characters of a string, in order.
pub fn chars_of(s: &str) -> (v: Vec<char>)
    ensures
        v@ == s@,
{
    let mut v: Vec<char> = Vec::new();
    for c in it: s.chars()
        invariant
            v@ == it.seq().take(it.index() as int),
    {
        v.push(c);
    }
    v
}

/// Whether `a` comes strictly before `b`.
pub fn key_less(a: &Vec<char>, b: &Vec<char>) -> (r: bool)
    ensures
        r == key_lt(a@, b@),
{
    let mut i: usize = 0;
    assert(a@.skip(0) =~= a@);
    assert(b@.skip(0) =~= b@);
    while i < a.len() && i < b.len()
        invariant
            i <= a@.len(),
            i <= b@.len(),
            key_lt(a@, b@) == key_lt(a@.skip(i as int), b@.skip(i as int)),
        decreases a@.len() - i,
    {
        if a[i] != b[i] {
            assert(a@.skip(i as int)[0] == a@[i as int]);
            assert(b@.skip(i as int)[0] == b@[i as int]);
            return a[i] < b[i];
        }
        assert(a@.skip(i as int).drop_first() =~= a@.skip(i + 1));
        assert(b@.skip(i as int).drop_first() =~= b@.skip(i + 1));
        i = i + 1;
    }
    i == a.len() && i < b.len()
}

} // verus!
