//! The key that the members of a mutual block share: the names of its inductive
//! types, sorted and joined.
use vstd::prelude::*;
use vstd::relations::sorted_by;
use vstd::relations::total_ordering;
use vstd::utf8::encode_utf8;

verus! {

/// The character that separates the names in a key.
pub const SEPARATOR: char = '\u{1}';

/// The texts of a list of strings.
pub open spec fn texts(v: Seq<String>) -> Seq<Seq<char>> {
    v.map_values(|s: String| s@)
}

/// The lexicographic order of bytes.
pub open spec fn bytes_leq(a: Seq<u8>, b: Seq<u8>) -> bool
    decreases a.len(),
{
    if a.len() == 0 {
        true
    } else if b.len() == 0 {
        false
    } else if a[0] != b[0] {
        a[0] < b[0]
    } else {
        bytes_leq(a.drop_first(), b.drop_first())
    }
}

/// The order of strings: lexicographic, by their bytes.
pub open spec fn text_leq() -> spec_fn(Seq<char>, Seq<char>) -> bool {
    |a: Seq<char>, b: Seq<char>| bytes_leq(encode_utf8(a), encode_utf8(b))
}

/// The parts one after the other, with the separator between them.
pub open spec fn joined(parts: Seq<Seq<char>>) -> Seq<char>
    decreases parts.len(),
{
    if parts.len() == 0 {
        Seq::empty()
    } else if parts.len() == 1 {
        parts[0]
    } else {
        joined(parts.drop_last()).push(SEPARATOR) + parts.last()
    }
}

/// The key of a mutual block with these inductive types.
pub open spec fn block_key(all: Seq<Seq<char>>) -> Seq<char> {
    joined(all.sort_by(text_leq()))
}

proof fn lemma_bytes_reflexive(a: Seq<u8>)
    ensures
        bytes_leq(a, a),
    decreases a.len(),
{
    if a.len() > 0 {
        lemma_bytes_reflexive(a.drop_first());
    }
}

proof fn lemma_bytes_total(a: Seq<u8>, b: Seq<u8>)
    ensures
        bytes_leq(a, b) || bytes_leq(b, a),
    decreases a.len(),
{
    if a.len() > 0 && b.len() > 0 {
        lemma_bytes_total(a.drop_first(), b.drop_first());
    }
}

proof fn lemma_bytes_antisymmetric(a: Seq<u8>, b: Seq<u8>)
    requires
        bytes_leq(a, b),
        bytes_leq(b, a),
    ensures
        a == b,
    decreases a.len(),
{
    if a.len() > 0 && b.len() > 0 {
        lemma_bytes_antisymmetric(a.drop_first(), b.drop_first());
        assert(a =~= seq![a[0]] + a.drop_first());
        assert(b =~= seq![b[0]] + b.drop_first());
    }
    assert(a =~= b);
}

proof fn lemma_bytes_transitive(a: Seq<u8>, b: Seq<u8>, c: Seq<u8>)
    requires
        bytes_leq(a, b),
        bytes_leq(b, c),
    ensures
        bytes_leq(a, c),
    decreases a.len(),
{
    if a.len() > 0 && b.len() > 0 && c.len() > 0 && a[0] == b[0] && b[0] == c[0] {
        lemma_bytes_transitive(a.drop_first(), b.drop_first(), c.drop_first());
    }
}

/// The order of strings is a total order.
pub proof fn lemma_text_order()
    ensures
        total_ordering(text_leq()),
{
    let leq = text_leq();
    assert forall|x: Seq<char>| #[trigger] leq(x, x) by {
        lemma_bytes_reflexive(encode_utf8(x));
    }
    assert forall|x: Seq<char>, y: Seq<char>| #[trigger] leq(x, y) && #[trigger] leq(
        y,
        x,
    ) implies x == y by {
        lemma_bytes_antisymmetric(encode_utf8(x), encode_utf8(y));
        vstd::utf8::encode_utf8_decode_utf8(x);
        vstd::utf8::encode_utf8_decode_utf8(y);
    }
    assert forall|x: Seq<char>, y: Seq<char>, z: Seq<char>| #[trigger] leq(x, y)
        && #[trigger] leq(y, z) implies leq(x, z) by {
        lemma_bytes_transitive(encode_utf8(x), encode_utf8(y), encode_utf8(z));
    }
    assert forall|x: Seq<char>, y: Seq<char>| #[trigger] leq(x, y) || #[trigger] leq(y, x) by {
        lemma_bytes_total(encode_utf8(x), encode_utf8(y));
    }
}

fn string_leq(a: &String, b: &String) -> (r: bool)
    ensures
        r == text_leq()(a@, b@),
{
    let x = a.as_str().as_bytes();
    let y = b.as_str().as_bytes();
    let mut i: usize = 0;
    assert(x@.skip(0) =~= x@);
    assert(y@.skip(0) =~= y@);
    loop
        invariant
            i <= x@.len(),
            i <= y@.len(),
            x@ == encode_utf8(a@),
            y@ == encode_utf8(b@),
            bytes_leq(x@, y@) == bytes_leq(x@.skip(i as int), y@.skip(i as int)),
        decreases x@.len() - i,
    {
        if i >= x.len() {
            return true;
        }
        if i >= y.len() {
            return false;
        }
        if x[i] != y[i] {
            return x[i] < y[i];
        }
        assert(x@.skip(i as int).drop_first() =~= x@.skip(i + 1));
        assert(y@.skip(i as int).drop_first() =~= y@.skip(i + 1));
        i = i + 1;
    }
}

/// The strings in ascending order.
fn sorted(all: Vec<String>) -> (out: Vec<String>)
    ensures
        texts(out@) == texts(all@).sort_by(text_leq()),
{
    let mut out: Vec<String> = Vec::new();
    let ghost leq = text_leq();
    let ghost given = all@;
    proof {
        lemma_text_order();
        assert(texts(out@) =~= Seq::<Seq<char>>::empty());
        assert(texts(given).take(0) =~= Seq::<Seq<char>>::empty());
    }
    for s in it: all
        invariant
            it.seq() == given,
            leq == text_leq(),
            total_ordering(leq),
            sorted_by(texts(out@), leq),
            texts(out@).to_multiset() == texts(given).take(it.index() as int).to_multiset(),
    {
        let ghost n = it.index() as int;
        let ghost out0 = out@;
        let mut pos: usize = out.len();
        while pos > 0 && !string_leq(&out[pos - 1], &s)
            invariant
                pos <= out@.len(),
                out@ == out0,
                leq == text_leq(),
                total_ordering(leq),
                sorted_by(texts(out@), leq),
                forall|k: int| pos <= k < out@.len() ==> leq(s@, #[trigger] texts(out@)[k]),
            decreases pos,
        {
            proof {
                let x = texts(out@)[pos - 1];
                assert(!leq(x, s@));
                assert(leq(s@, x) || leq(x, s@));
            }
            pos = pos - 1;
        }
        let ghost text = s@;
        out.insert(pos, s);
        proof {
            let t0 = texts(out0);
            let t1 = texts(out@);
            assert(t1 =~= t0.insert(pos as int, text));
            if pos > 0 {
                assert(leq(t0[pos - 1], text));
            }
            assert forall|i: int, j: int| 0 <= i < j < t1.len() implies #[trigger] leq(
                t1[i],
                t1[j],
            ) by {
                let i0 = if i < pos {
                    i
                } else {
                    i - 1
                };
                let j0 = if j < pos {
                    j
                } else {
                    j - 1
                };
                if i == pos {
                    assert(t1[j] == t0[j - 1]);
                } else if j == pos {
                    assert(t1[i] == t0[i]);
                    if i < pos - 1 {
                        assert(leq(t0[i], t0[pos - 1]));
                        assert(leq(t0[pos - 1], text));
                    }
                } else {
                    assert(leq(t0[i0], t0[j0]));
                }
            }
            vstd::seq_lib::to_multiset_insert(t0, pos as int, text);
            let g = texts(given);
            assert(g.take(n + 1) =~= g.take(n).push(text));
            vstd::seq_lib::to_multiset_build(g.take(n), text);
        }
    }
    proof {
        let g = texts(given);
        assert(g.take(g.len() as int) =~= g);
        g.lemma_sort_by_ensures(leq);
        vstd::seq_lib::lemma_sorted_unique(texts(out@), g.sort_by(leq), leq);
    }
    out
}

/// The key of a mutual block with these inductive types.
pub fn block_key_from_all(all: Vec<String>) -> (key: String)
    ensures
        key@ == block_key(texts(all@)),
{
    let parts = sorted(all);
    let mut key: String = String::new();
    let n: usize = parts.len();
    let mut i: usize = 0;
    proof {
        reveal_strlit("\u{1}");
        assert("\u{1}"@ =~= seq![SEPARATOR]);
        assert(texts(parts@).take(0) =~= Seq::<Seq<char>>::empty());
    }
    while i < n
        invariant
            n == parts@.len(),
            i <= n,
            "\u{1}"@ == seq![SEPARATOR],
            key@ == joined(texts(parts@).take(i as int)),
        decreases n - i,
    {
        proof {
            let t = texts(parts@);
            assert(t.take(i + 1).drop_last() =~= t.take(i as int));
            assert(t.take(i + 1).last() == parts@[i as int]@);
        }
        if i > 0 {
            key.append("\u{1}");
        }
        key.append(parts[i].as_str());
        proof {
            let t = texts(parts@);
            if i > 0 {
                assert(joined(t.take(i as int)) + seq![SEPARATOR] =~= joined(t.take(i as int)).push(
                    SEPARATOR,
                ));
            } else {
                assert(joined(t.take(1)) == t.take(1)[0]);
                assert(key@ =~= t[0]);
            }
        }
        i = i + 1;
    }
    assert(texts(parts@).take(n as int) =~= texts(parts@));
    key
}

/// Law: the key of a block does not depend on the order in which its inductive
/// types are listed.
pub proof fn law_key_ignores_order(a: Seq<Seq<char>>, b: Seq<Seq<char>>)
    requires
        a.to_multiset() == b.to_multiset(),
    ensures
        block_key(a) == block_key(b),
{
    let leq = text_leq();
    lemma_text_order();
    a.lemma_sort_by_ensures(leq);
    b.lemma_sort_by_ensures(leq);
    vstd::seq_lib::lemma_sorted_unique(a.sort_by(leq), b.sort_by(leq), leq);
}

/// No part holds the separator.
pub open spec fn separable(parts: Seq<Seq<char>>) -> bool {
    forall|i: int| 0 <= i < parts.len() ==> !(#[trigger] parts[i]).contains(SEPARATOR)
}

proof fn lemma_joined_injective(p: Seq<Seq<char>>, q: Seq<Seq<char>>)
    requires
        p.len() > 0,
        q.len() > 0,
        separable(p),
        separable(q),
        joined(p) == joined(q),
    ensures
        p == q,
    decreases p.len(),
{
    let x = joined(p);
    assert(!p.last().contains(SEPARATOR));
    assert(!q.last().contains(SEPARATOR));
    if p.len() > 1 {
        let jp = joined(p.drop_last());
        let cut = jp.len() as int;
        assert(x[cut] == SEPARATOR);
        if q.len() == 1 {
            assert(q.last().contains(SEPARATOR));
        } else {
            let jq = joined(q.drop_last());
            let cut2 = jq.len() as int;
            assert(x == jp.push(SEPARATOR) + p.last());
            assert(x == jq.push(SEPARATOR) + q.last());
            assert(x.len() == cut + 1 + p.last().len());
            assert(x.len() == cut2 + 1 + q.last().len());
            assert(x[cut2] == jq.push(SEPARATOR)[cut2]);
            if cut < cut2 {
                assert(x[cut2] == p.last()[cut2 - cut - 1]);
                assert(p.last()[cut2 - cut - 1] == SEPARATOR);
            }
            if cut2 < cut {
                assert(x[cut] == q.last()[cut - cut2 - 1]);
                assert(q.last()[cut - cut2 - 1] == SEPARATOR);
            }
            assert(jp =~= x.take(cut));
            assert(jq =~= x.take(cut2));
            assert(p.last() =~= x.skip(cut + 1));
            assert(q.last() =~= x.skip(cut2 + 1));
            assert(separable(p.drop_last())) by {
                assert forall|i: int| 0 <= i < p.drop_last().len() implies !(
                #[trigger] p.drop_last()[i]).contains(SEPARATOR) by {
                    assert(!p[i].contains(SEPARATOR));
                }
            }
            assert(separable(q.drop_last())) by {
                assert forall|i: int| 0 <= i < q.drop_last().len() implies !(
                #[trigger] q.drop_last()[i]).contains(SEPARATOR) by {
                    assert(!q[i].contains(SEPARATOR));
                }
            }
            lemma_joined_injective(p.drop_last(), q.drop_last());
            assert(p =~= p.drop_last().push(p.last()));
            assert(q =~= q.drop_last().push(q.last()));
        }
    } else if q.len() > 1 {
        let jq = joined(q.drop_last());
        assert(x[jq.len() as int] == SEPARATOR);
        assert(p.last().contains(SEPARATOR));
    } else {
        assert(p =~= q);
    }
}

proof fn lemma_sorted_separable(a: Seq<Seq<char>>)
    requires
        separable(a),
        a.len() > 0,
    ensures
        separable(a.sort_by(text_leq())),
        a.sort_by(text_leq()).len() > 0,
        a.sort_by(text_leq()).to_multiset() == a.to_multiset(),
{
    let leq = text_leq();
    lemma_text_order();
    a.lemma_sort_by_ensures(leq);
    let s = a.sort_by(leq);
    vstd::seq_lib::to_multiset_len(a);
    vstd::seq_lib::to_multiset_len(s);
    assert forall|i: int| 0 <= i < s.len() implies !(#[trigger] s[i]).contains(SEPARATOR) by {
        assert(s.contains(s[i]));
        assert(a.contains(s[i]));
        let k = choose|k: int| 0 <= k < a.len() && a[k] == s[i];
        assert(!a[k].contains(SEPARATOR));
    }
}

/// Law: blocks with different inductive types have different keys, as long as no
/// name holds the separator.
pub proof fn law_key_tells_blocks_apart(a: Seq<Seq<char>>, b: Seq<Seq<char>>)
    requires
        a.len() > 0,
        b.len() > 0,
        separable(a),
        separable(b),
        block_key(a) == block_key(b),
    ensures
        a.to_multiset() == b.to_multiset(),
{
    lemma_sorted_separable(a);
    lemma_sorted_separable(b);
    lemma_joined_injective(a.sort_by(text_leq()), b.sort_by(text_leq()));
}

} // verus!
