//! The order in which page titles are listed: the order of `String`'s `Ord`,
//! that is, byte by byte on their UTF-8 encoding.
use vstd::prelude::*;
use vstd::utf8::encode_utf8;

verus! {

/// Lexicographic order on byte strings: `a` comes strictly before `b`.
pub open spec fn bytes_before(a: Seq<u8>, b: Seq<u8>) -> bool
    decreases a.len(),
{
    if a.len() == 0 {
        b.len() > 0
    } else if b.len() == 0 {
        false
    } else if a[0] != b[0] {
        a[0] < b[0]
    } else {
        bytes_before(a.drop_first(), b.drop_first())
    }
}

/// Title `a` comes strictly before title `b`.
pub open spec fn title_before(a: Seq<char>, b: Seq<char>) -> bool {
    bytes_before(encode_utf8(a), encode_utf8(b))
}

/// Title `a` comes before title `b` or equals it.
pub open spec fn title_le(a: Seq<char>, b: Seq<char>) -> bool {
    a == b || title_before(a, b)
}

/// The titles that a list of strings holds, in order.
pub open spec fn titles_of(v: Seq<String>) -> Seq<Seq<char>> {
    v.map_values(|t: String| t@)
}

/// Each title comes strictly before every later one.
pub open spec fn ascending(s: Seq<Seq<char>>) -> bool {
    forall|i: int, j: int| 0 <= i < j < s.len() ==> title_before(#[trigger] s[i], #[trigger] s[j])
}

/// Each title comes before every later one or equals it.
pub open spec fn nondescending(s: Seq<Seq<char>>) -> bool {
    forall|i: int, j: int| 0 <= i < j < s.len() ==> title_le(#[trigger] s[i], #[trigger] s[j])
}

/// Two byte strings that agree up to a first difference are ordered by the
/// bytes at that difference, compared as unsigned numbers; a proper prefix
/// comes before every longer string that extends it.
pub proof fn lemma_bytes_before_first_difference(
    p: Seq<u8>,
    x: u8,
    y: u8,
    s: Seq<u8>,
    t: Seq<u8>,
)
    ensures
        x != y ==> (bytes_before(p + seq![x] + s, p + seq![y] + t) <==> x < y),
        bytes_before(p, p + seq![x] + t),
        !bytes_before(p + seq![x] + t, p),
    decreases p.len(),
{
    let a = p + seq![x] + s;
    let b = p + seq![y] + t;
    let c = p + seq![x] + t;
    if p.len() == 0 {
        assert(a =~= seq![x] + s);
        assert(b =~= seq![y] + t);
        assert(c =~= seq![x] + t);
        assert(a[0] == x && b[0] == y && c[0] == x);
        assert(p =~= Seq::<u8>::empty());
    } else {
        let q = p.drop_first();
        lemma_bytes_before_first_difference(q, x, y, s, t);
        assert(a.drop_first() =~= q + seq![x] + s);
        assert(b.drop_first() =~= q + seq![y] + t);
        assert(c.drop_first() =~= q + seq![x] + t);
        assert(a[0] == p[0] && b[0] == p[0] && c[0] == p[0]);
    }
}

/// No byte string comes before itself.
pub proof fn lemma_bytes_before_irreflexive(a: Seq<u8>)
    ensures
        !bytes_before(a, a),
    decreases a.len(),
{
    if a.len() > 0 {
        lemma_bytes_before_irreflexive(a.drop_first());
    }
}

/// The byte order is transitive.
pub proof fn lemma_bytes_before_transitive(a: Seq<u8>, b: Seq<u8>, c: Seq<u8>)
    requires
        bytes_before(a, b),
        bytes_before(b, c),
    ensures
        bytes_before(a, c),
    decreases a.len(),
{
    if a.len() > 0 && b.len() > 0 && c.len() > 0 && a[0] == b[0] && b[0] == c[0] {
        lemma_bytes_before_transitive(a.drop_first(), b.drop_first(), c.drop_first());
    }
}

/// Of two different byte strings, one comes before the other.
pub proof fn lemma_bytes_before_total(a: Seq<u8>, b: Seq<u8>)
    requires
        a != b,
    ensures
        bytes_before(a, b) || bytes_before(b, a),
    decreases a.len(),
{
    if a.len() == 0 && b.len() == 0 {
        assert(a =~= b);
    } else if a.len() > 0 && b.len() > 0 && a[0] == b[0] {
        if a.drop_first() == b.drop_first() {
            assert(a =~= seq![a[0]] + a.drop_first());
            assert(b =~= seq![b[0]] + b.drop_first());
        }
        lemma_bytes_before_total(a.drop_first(), b.drop_first());
    }
}

/// Different titles have different encodings.
pub proof fn lemma_encoding_injective(a: Seq<char>, b: Seq<char>)
    requires
        a != b,
    ensures
        encode_utf8(a) != encode_utf8(b),
{
    vstd::utf8::encode_utf8_decode_utf8(a);
    vstd::utf8::encode_utf8_decode_utf8(b);
}

/// The title order is a strict total order.
pub proof fn lemma_title_order(a: Seq<char>, b: Seq<char>, c: Seq<char>)
    ensures
        !title_before(a, a),
        title_before(a, b) && title_before(b, c) ==> title_before(a, c),
        a != b ==> title_before(a, b) || title_before(b, a),
        title_before(a, b) ==> !title_before(b, a),
        title_le(a, b) && title_le(b, c) ==> title_le(a, c),
{
    lemma_bytes_before_irreflexive(encode_utf8(a));
    if title_before(a, b) && title_before(b, c) {
        lemma_bytes_before_transitive(encode_utf8(a), encode_utf8(b), encode_utf8(c));
    }
    if a != b {
        lemma_encoding_injective(a, b);
        lemma_bytes_before_total(encode_utf8(a), encode_utf8(b));
    }
    if title_before(a, b) && title_before(b, a) {
        lemma_bytes_before_transitive(encode_utf8(a), encode_utf8(b), encode_utf8(a));
    }
}

/// Whether byte string `a` comes strictly before byte string `b`.
pub fn bytes_lt(a: &[u8], b: &[u8]) -> (before: bool)
    ensures
        before == bytes_before(a@, b@),
{
    let mut i: usize = 0;
    assert(a@.skip(0) =~= a@);
    assert(b@.skip(0) =~= b@);
    while i < a.len() && i < b.len()
        invariant
            i <= a@.len(),
            i <= b@.len(),
            bytes_before(a@, b@) == bytes_before(a@.skip(i as int), b@.skip(i as int)),
        decreases a@.len() - i,
    {
        if a[i] != b[i] {
            return a[i] < b[i];
        }
        assert(a@.skip(i as int).drop_first() =~= a@.skip(i + 1));
        assert(b@.skip(i as int).drop_first() =~= b@.skip(i + 1));
        i += 1;
    }
    a.len() < b.len()
}

/// Whether title `a` comes strictly before title `b`.
pub fn title_lt(a: &String, b: &String) -> (before: bool)
    ensures
        before == title_before(a@, b@),
{
    bytes_lt(a.as_str().as_bytes(), b.as_str().as_bytes())
}

/// Merges two lists each in nondescending order into one.
fn merge(left: &Vec<String>, right: &Vec<String>) -> (merged: Vec<String>)
    requires
        nondescending(titles_of(left@)),
        nondescending(titles_of(right@)),
    ensures
        nondescending(titles_of(merged@)),
        titles_of(merged@).to_multiset() =~= titles_of(left@).to_multiset().add(
            titles_of(right@).to_multiset(),
        ),
{
    broadcast use vstd::seq_lib::group_to_multiset_ensures;
    broadcast use vstd::multiset::group_multiset_axioms;

    let ghost lt = titles_of(left@);
    let ghost rt = titles_of(right@);
    let mut merged: Vec<String> = Vec::new();
    let mut i: usize = 0;
    let mut j: usize = 0;
    assert(lt.take(0) =~= Seq::<Seq<char>>::empty());
    assert(rt.take(0) =~= Seq::<Seq<char>>::empty());
    assert(titles_of(merged@) =~= Seq::<Seq<char>>::empty());
    while i < left.len() || j < right.len()
        invariant
            lt == titles_of(left@),
            rt == titles_of(right@),
            nondescending(lt),
            nondescending(rt),
            i <= left@.len(),
            j <= right@.len(),
            merged@.len() == i + j,
            nondescending(titles_of(merged@)),
            titles_of(merged@).to_multiset() =~= lt.take(i as int).to_multiset().add(
                rt.take(j as int).to_multiset(),
            ),
            merged@.len() > 0 && i < left@.len() ==> title_le(
                titles_of(merged@).last(),
                lt[i as int],
            ),
            merged@.len() > 0 && j < right@.len() ==> title_le(
                titles_of(merged@).last(),
                rt[j as int],
            ),
        decreases left@.len() + right@.len() - i - j,
    {
        let ghost old_view = titles_of(merged@);
        let ghost oi = i as int;
        let ghost oj = j as int;
        let take_left = if i == left.len() {
            false
        } else if j == right.len() {
            true
        } else {
            !title_lt(&right[j], &left[i])
        };
        let ghost picked: Seq<char>;
        if take_left {
            proof {
                picked = lt[i as int];
                if j < right@.len() {
                    lemma_title_order(lt[i as int], rt[j as int], rt[j as int]);
                }
            }
            merged.push(left[i].clone());
            i += 1;
        } else {
            proof {
                picked = rt[j as int];
            }
            merged.push(right[j].clone());
            j += 1;
        }
        proof {
            let nv = titles_of(merged@);
            assert(nv =~= old_view.push(picked));
            vstd::seq_lib::to_multiset_build(old_view, picked);
            assert(nv.to_multiset() =~= old_view.to_multiset().insert(picked));
            if take_left {
                assert(lt.take(i as int) =~= lt.take(oi).push(picked));
                vstd::seq_lib::to_multiset_build(lt.take(oi), picked);
                assert(lt.take(i as int).to_multiset() =~= lt.take(oi).to_multiset().insert(picked));
            } else {
                assert(rt.take(j as int) =~= rt.take(oj).push(picked));
                vstd::seq_lib::to_multiset_build(rt.take(oj), picked);
                assert(rt.take(j as int).to_multiset() =~= rt.take(oj).to_multiset().insert(picked));
            }
            assert forall|a: int, b: int| 0 <= a < b < nv.len() implies title_le(
                #[trigger] nv[a],
                #[trigger] nv[b],
            ) by {
                if b == nv.len() - 1 && a < old_view.len() - 1 {
                    lemma_title_order(nv[a], old_view.last(), picked);
                }
            }
            if i < left@.len() {
                if take_left {
                    assert(title_le(lt[i - 1], lt[i as int]));
                }
            }
            if j < right@.len() {
                if !take_left {
                    assert(title_le(rt[j - 1], rt[j as int]));
                }
            }
        }
    }
    assert(lt.take(i as int) =~= lt);
    assert(rt.take(j as int) =~= rt);
    merged
}

/// The titles `v[lo..hi]`, sorted into nondescending order.
fn sort_range(v: &Vec<String>, lo: usize, hi: usize) -> (sorted: Vec<String>)
    requires
        lo <= hi <= v@.len(),
    ensures
        nondescending(titles_of(sorted@)),
        titles_of(sorted@).to_multiset() =~= titles_of(v@).subrange(
            lo as int,
            hi as int,
        ).to_multiset(),
    decreases hi - lo,
{
    broadcast use vstd::seq_lib::group_to_multiset_ensures;

    if hi - lo == 0 {
        let sorted: Vec<String> = Vec::new();
        assert(titles_of(sorted@) =~= titles_of(v@).subrange(lo as int, hi as int));
        sorted
    } else if hi - lo == 1 {
        let mut sorted: Vec<String> = Vec::new();
        sorted.push(v[lo].clone());
        assert(titles_of(sorted@) =~= titles_of(v@).subrange(lo as int, hi as int));
        sorted
    } else {
        let mid = lo + (hi - lo) / 2;
        let left = sort_range(v, lo, mid);
        let right = sort_range(v, mid, hi);
        proof {
            let t = titles_of(v@);
            assert(t.subrange(lo as int, hi as int) =~= t.subrange(lo as int, mid as int)
                + t.subrange(mid as int, hi as int));
            vstd::seq_lib::lemma_multiset_commutative(
                t.subrange(lo as int, mid as int),
                t.subrange(mid as int, hi as int),
            );
        }
        merge(&left, &right)
    }
}

/// The titles of `v` sorted into ascending order; `v` holds no title twice.
pub fn sort_titles(v: &Vec<String>) -> (sorted: Vec<String>)
    requires
        titles_of(v@).no_duplicates(),
    ensures
        ascending(titles_of(sorted@)),
        titles_of(sorted@).to_multiset() =~= titles_of(v@).to_multiset(),
        sorted@.len() == v@.len(),
{
    broadcast use vstd::seq_lib::group_to_multiset_ensures;

    let sorted = sort_range(v, 0, v.len());
    proof {
        let t = titles_of(v@);
        let s = titles_of(sorted@);
        assert(t.subrange(0, t.len() as int) =~= t);
        t.lemma_multiset_has_no_duplicates();
        s.lemma_multiset_has_no_duplicates_conv();
        assert(s.to_multiset().len() == t.to_multiset().len());
        assert(s.len() == t.len());
        assert forall|i: int, j: int| 0 <= i < j < s.len() implies title_before(
            #[trigger] s[i],
            #[trigger] s[j],
        ) by {
            assert(title_le(s[i], s[j]));
            assert(s[i] != s[j]);
        }
    }
    sorted
}

} // verus!
