use vstd::prelude::*;
use vstd::relations::*;

verus! {

/// Lexicographic order on character sequences. Comparing code points is the
/// same as comparing the UTF-8 bytes, which is how `String` orders itself.
pub open spec fn lex_le(a: Seq<char>, b: Seq<char>) -> bool
    decreases a.len(),
{
    if a.len() == 0 {
        true
    } else if b.len() == 0 {
        false
    } else if a[0] != b[0] {
        (a[0] as int) < (b[0] as int)
    } else {
        lex_le(a.drop_first(), b.drop_first())
    }
}

/// The order in which addresses are listed inside a label.
pub open spec fn address_order() -> spec_fn(Seq<char>, Seq<char>) -> bool {
    |a: Seq<char>, b: Seq<char>| lex_le(a, b)
}

/// The text of each string in a sequence.
pub open spec fn texts(v: Seq<String>) -> Seq<Seq<char>> {
    v.map_values(|s: String| s@)
}

/// The pieces joined with `-` between neighbours.
pub open spec fn join_with_dash(pieces: Seq<Seq<char>>) -> Seq<char>
    decreases pieces.len(),
{
    if pieces.len() == 0 {
        Seq::empty()
    } else if pieces.len() == 1 {
        pieces[0]
    } else {
        join_with_dash(pieces.drop_last()) + seq!['-'] + pieces.last()
    }
}

/// The label of an address set given in some enumeration order: empty for no
/// address, the address itself for one, and otherwise the addresses in
/// ascending order joined with `-`.
pub open spec fn canonical_label(addresses: Seq<Seq<char>>) -> Seq<char> {
    if addresses.len() == 0 {
        Seq::empty()
    } else if addresses.len() == 1 {
        addresses[0]
    } else {
        join_with_dash(addresses.sort_by(address_order()))
    }
}

proof fn lemma_lex_le_reflexive(a: Seq<char>)
    ensures
        lex_le(a, a),
    decreases a.len(),
{
    if a.len() > 0 {
        lemma_lex_le_reflexive(a.drop_first());
    }
}

proof fn lemma_lex_le_antisymmetric(a: Seq<char>, b: Seq<char>)
    requires
        lex_le(a, b),
        lex_le(b, a),
    ensures
        a == b,
    decreases a.len(),
{
    if a.len() == 0 {
        assert(a =~= b);
    } else if a[0] == b[0] {
        lemma_lex_le_antisymmetric(a.drop_first(), b.drop_first());
        assert(a =~= b) by {
            assert(a =~= seq![a[0]] + a.drop_first());
            assert(b =~= seq![b[0]] + b.drop_first());
        }
    }
}

proof fn lemma_lex_le_transitive(a: Seq<char>, b: Seq<char>, c: Seq<char>)
    requires
        lex_le(a, b),
        lex_le(b, c),
    ensures
        lex_le(a, c),
    decreases a.len(),
{
    if a.len() > 0 && a[0] == b[0] && b[0] == c[0] {
        lemma_lex_le_transitive(a.drop_first(), b.drop_first(), c.drop_first());
    }
}

proof fn lemma_lex_le_connected(a: Seq<char>, b: Seq<char>)
    ensures
        lex_le(a, b) || lex_le(b, a),
    decreases a.len(),
{
    if a.len() > 0 && b.len() > 0 {
        if a[0] == b[0] {
            lemma_lex_le_connected(a.drop_first(), b.drop_first());
        } else {
            assert((a[0] as int) != (b[0] as int));
        }
    }
}

/// The order on addresses is a total order.
pub proof fn lemma_address_order_total()
    ensures
        total_ordering(address_order()),
{
    let leq = address_order();
    assert forall|x: Seq<char>| #[trigger] leq(x, x) by {
        lemma_lex_le_reflexive(x);
    }
    assert forall|x: Seq<char>, y: Seq<char>| #[trigger] leq(x, y) && #[trigger] leq(y, x)
        implies x == y by {
        lemma_lex_le_antisymmetric(x, y);
    }
    assert forall|x: Seq<char>, y: Seq<char>, z: Seq<char>|
        #[trigger] leq(x, y) && #[trigger] leq(y, z) implies leq(x, z) by {
        lemma_lex_le_transitive(x, y, z);
    }
    assert forall|x: Seq<char>, y: Seq<char>| #[trigger] leq(x, y) || #[trigger] leq(y, x) by {
        lemma_lex_le_connected(x, y);
    }
}

/// Two sequences sorted by the same total order that hold the same elements
/// are the same sequence.
pub proof fn lemma_sorted_unique<T>(a: Seq<T>, b: Seq<T>, leq: spec_fn(T, T) -> bool)
    requires
        total_ordering(leq),
        sorted_by(a, leq),
        sorted_by(b, leq),
        a.to_multiset() == b.to_multiset(),
    ensures
        a == b,
    decreases a.len(),
{
    broadcast use vstd::seq_lib::group_to_multiset_ensures;

    assert(a.len() == a.to_multiset().len());
    assert(b.len() == b.to_multiset().len());
    if a.len() == 0 {
        assert(a =~= b);
    } else {
        assert(a.contains(a[0]));
        assert(a.to_multiset().count(a[0]) > 0);
        assert(b.contains(a[0]));
        let j = choose|j: int| 0 <= j < b.len() && b[j] == a[0];
        if j > 0 {
            assert(leq(b[0], b[j]));
        }
        assert(leq(b[0], a[0]));
        assert(b.contains(b[0]));
        assert(b.to_multiset().count(b[0]) > 0);
        assert(a.contains(b[0]));
        let k = choose|k: int| 0 <= k < a.len() && a[k] == b[0];
        if k > 0 {
            assert(leq(a[0], a[k]));
        }
        assert(leq(a[0], b[0]));
        assert(a[0] == b[0]);
        assert(a.remove(0) =~= a.drop_first());
        assert(b.remove(0) =~= b.drop_first());
        assert(a.drop_first().to_multiset() == b.drop_first().to_multiset());
        lemma_sorted_unique(a.drop_first(), b.drop_first(), leq);
        assert(a =~= seq![a[0]] + a.drop_first());
        assert(b =~= seq![b[0]] + b.drop_first());
    }
}

/// The label of an address set does not depend on the order in which its
/// addresses are enumerated.
pub proof fn lemma_label_ignores_enumeration_order(a: Seq<Seq<char>>, b: Seq<Seq<char>>)
    requires
        a.to_multiset() == b.to_multiset(),
    ensures
        canonical_label(a) == canonical_label(b),
{
    broadcast use vstd::seq_lib::group_to_multiset_ensures;

    assert(a.len() == a.to_multiset().len());
    assert(b.len() == b.to_multiset().len());
    if a.len() == 1 {
        assert(b.contains(b[0]));
        assert(b.to_multiset().count(b[0]) > 0);
        assert(a.contains(b[0]));
        assert(a[0] == b[0]);
    } else if a.len() > 1 {
        let leq = address_order();
        lemma_address_order_total();
        a.lemma_sort_by_ensures(leq);
        b.lemma_sort_by_ensures(leq);
        lemma_sorted_unique(a.sort_by(leq), b.sort_by(leq), leq);
    }
}

/// Relies on `slice::sort` for `String`: it rearranges the elements, keeping
/// each one, into ascending order of `String`'s `Ord`, which compares the
/// bytes lexicographically.
#[verifier::external_body]
fn sort_strings(v: &mut Vec<String>)
    ensures
        texts(final(v)@).to_multiset() == texts(old(v)@).to_multiset(),
        sorted_by(texts(final(v)@), address_order()),
{
    v.sort();
}

/// The pieces joined with `-` between neighbours.
fn join_dash(pieces: &Vec<String>) -> (r: String)
    ensures
        r@ == join_with_dash(texts(pieces@)),
{
    let mut r = String::new();
    let mut i: usize = 0;
    while i < pieces.len()
        invariant
            i <= pieces.len(),
            r@ == join_with_dash(texts(pieces@).take(i as int)),
        decreases pieces.len() - i,
    {
        proof {
            reveal_strlit("-");
        }
        let ghost before = r@;
        if i > 0 {
            r.append("-");
        }
        r.append(pieces[i].as_str());
        proof {
            let t = texts(pieces@).take(i + 1);
            assert(t.drop_last() =~= texts(pieces@).take(i as int));
            if i == 0 {
                assert(before =~= Seq::<char>::empty());
                assert(r@ =~= t[0]);
            } else {
                assert(r@ =~= before + seq!['-'] + t.last());
            }
        }
        i = i + 1;
    }
    assert(texts(pieces@).take(pieces.len() as int) =~= texts(pieces@));
    r
}

/// The label of one input's or output's address set, in the order the
/// addresses were enumerated.
pub fn addresses_to_string(addresses: &Vec<String>) -> (r: String)
    ensures
        r@ == canonical_label(texts(addresses@)),
{
    if addresses.len() == 0 {
        String::new()
    } else if addresses.len() == 1 {
        addresses[0].clone()
    } else {
        let mut sorted = addresses.clone();
        assert(sorted@ =~= addresses@);
        sort_strings(&mut sorted);
        proof {
            let leq = address_order();
            let given = texts(addresses@);
            lemma_address_order_total();
            given.lemma_sort_by_ensures(leq);
            lemma_sorted_unique(texts(sorted@), given.sort_by(leq), leq);
        }
        join_dash(&sorted)
    }
}

} // verus!
