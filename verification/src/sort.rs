//! Insertion sorts for the region index: regions by state name within a
//! country, and countries by name.

use crate::consolidate::sorted_by_state;
use crate::data::{pair_view, regions_view, Region, RegionV};
use crate::order::{lemma_lex_le_total, lemma_lex_le_transitive, lex_le, lex_lt, str_lex_le};
use vstd::prelude::*;

verus! {

broadcast use vstd::seq_lib::group_to_multiset_ensures;

/// Inserting an element anywhere adds exactly one occurrence to a
/// sequence's multiset.
pub proof fn lemma_to_multiset_insert<A>(s: Seq<A>, i: int, x: A)
    requires
        0 <= i <= s.len(),
    ensures
        s.insert(i, x).to_multiset() == s.to_multiset().insert(x),
{
    let s2 = s.insert(i, x);
    assert(s2.remove(i) =~= s);
    assert(s2[i] == x);
    assert(s.to_multiset() == s2.to_multiset().remove(x));
    assert(s2.contains(x));
    assert(s2.to_multiset().count(x) > 0);
    assert(s2.to_multiset() =~= s.to_multiset().insert(x));
}

/// The position where a region with state `x` joins a state-sorted list:
/// after every state that does not sort above it.
fn state_insert_position(out: &Vec<Region>, x: &Region) -> (pos: usize)
    ensures
        pos <= out@.len(),
        forall|m: int| 0 <= m < pos ==> lex_le((#[trigger] out@[m])@.state, x@.state),
        pos < out@.len() ==> !lex_le(out@[pos as int]@.state, x@.state),
{
    let mut pos: usize = 0;
    while pos < out.len()
        invariant
            pos <= out@.len(),
            forall|m: int| 0 <= m < pos ==> lex_le((#[trigger] out@[m])@.state, x@.state),
        decreases out.len() - pos,
    {
        if !str_lex_le(out[pos].state.as_str(), x.state.as_str()) {
            return pos;
        }
        pos = pos + 1;
    }
    pos
}

/// Sorts a country's regions by state name ascending (the empty state
/// first); the result holds the same regions, each as often as before.
pub fn sort_regions_by_state(v: Vec<Region>) -> (r: Vec<Region>)
    ensures
        regions_view(r@).to_multiset() == regions_view(v@).to_multiset(),
        sorted_by_state(regions_view(r@)),
{
    let mut out: Vec<Region> = Vec::new();
    let mut i: usize = 0;
    proof {
        assert(regions_view(v@.take(0)) =~= Seq::<RegionV>::empty());
        assert(regions_view(out@) =~= Seq::<RegionV>::empty());
        assert(regions_view(out@).to_multiset() =~= regions_view(v@.take(0)).to_multiset());
    }
    while i < v.len()
        invariant
            i <= v.len(),
            regions_view(out@).to_multiset() == regions_view(v@.take(i as int)).to_multiset(),
            sorted_by_state(regions_view(out@)),
        decreases v.len() - i,
    {
        let ghost old_out = out@;
        let x = v[i].clone();
        let pos = state_insert_position(&out, &x);
        out.insert(pos, x);
        proof {
            assert(x@ == v@[i as int]@);
            assert(regions_view(out@) =~= regions_view(old_out).insert(pos as int, x@));
            lemma_to_multiset_insert(regions_view(old_out), pos as int, x@);
            assert(regions_view(v@.take(i + 1)) =~= regions_view(v@.take(i as int)).push(x@));
            assert(regions_view(v@.take(i + 1)).to_multiset() == regions_view(
                v@.take(i as int),
            ).to_multiset().insert(x@));
            let outv = regions_view(out@);
            let oldv = regions_view(old_out);
            assert forall|a: int, b: int| 0 <= a <= b < outv.len() implies lex_le(
                outv[a].state,
                outv[b].state,
            ) by {
                if pos < oldv.len() {
                    lemma_lex_le_total(oldv[pos as int].state, x@.state);
                }
                if a == b {
                    crate::order::lemma_lex_le_reflexive(outv[a].state);
                } else if b < pos {
                    assert(outv[a] == oldv[a] && outv[b] == oldv[b]);
                } else if a > pos {
                    assert(outv[a] == oldv[a - 1] && outv[b] == oldv[b - 1]);
                } else if a < pos && b == pos {
                    assert(outv[a] == oldv[a] && outv[b] == x@);
                } else if a < pos && b > pos {
                    assert(outv[a] == oldv[a] && outv[b] == oldv[b - 1]);
                } else if a == pos && b > pos {
                    assert(outv[a] == x@ && outv[b] == oldv[b - 1]);
                    assert(lex_le(x@.state, oldv[pos as int].state));
                    assert(lex_le(oldv[pos as int].state, oldv[b - 1].state));
                    lemma_lex_le_transitive(x@.state, oldv[pos as int].state, oldv[b - 1].state);
                }
            }
        }
        i = i + 1;
    }
    proof {
        assert(v@.take(v@.len() as int) =~= v@);
    }
    out
}

/// The position where a pair keyed by country `x` joins a country-sorted
/// list: after every country that does not sort above it.
fn country_insert_position(out: &Vec<(String, Vec<Region>)>, x: &String) -> (pos: usize)
    ensures
        pos <= out@.len(),
        forall|m: int| 0 <= m < pos ==> lex_le((#[trigger] out@[m]).0@, x@),
        pos < out@.len() ==> !lex_le(out@[pos as int].0@, x@),
{
    let mut pos: usize = 0;
    while pos < out.len()
        invariant
            pos <= out@.len(),
            forall|m: int| 0 <= m < pos ==> lex_le((#[trigger] out@[m]).0@, x@),
        decreases out.len() - pos,
    {
        if !str_lex_le(out[pos].0.as_str(), x.as_str()) {
            return pos;
        }
        pos = pos + 1;
    }
    pos
}

/// Sorts the region index by country name ascending. The countries must be
/// pairwise distinct, and the order is then strict; the entries themselves
/// are kept, each exactly once.
pub fn sort_groups_by_country(v: Vec<(String, Vec<Region>)>) -> (r: Vec<(String, Vec<Region>)>)
    requires
        forall|a: int, b: int|
            0 <= a < b < v@.len() ==> (#[trigger] v@[a]).0@ != (#[trigger] v@[b]).0@,
    ensures
        v@.map_values(|p: (String, Vec<Region>)| pair_view(p)).to_multiset() == r@.map_values(
            |p: (String, Vec<Region>)| pair_view(p),
        ).to_multiset(),
        forall|a: int, b: int|
            0 <= a < b < r@.len() ==> lex_lt((#[trigger] r@[a]).0@, (#[trigger] r@[b]).0@),
{
    let ghost pview = |p: (String, Vec<Region>)| pair_view(p);
    let ghost origv = v@.map_values(pview);
    let mut rest = v;
    let mut out: Vec<(String, Vec<Region>)> = Vec::new();
    proof {
        assert(out@.map_values(pview) =~= Seq::<(Seq<char>, Seq<RegionV>)>::empty());
        assert(out@.map_values(pview).to_multiset().add(rest@.map_values(pview).to_multiset())
            =~= origv.to_multiset());
    }
    while rest.len() > 0
        invariant
            pview == (|p: (String, Vec<Region>)| pair_view(p)),
            origv.to_multiset() == out@.map_values(pview).to_multiset().add(
                rest@.map_values(pview).to_multiset(),
            ),
            forall|a: int, b: int|
                0 <= a < b < rest@.len() ==> (#[trigger] rest@[a]).0@ != (#[trigger] rest@[b]).0@,
            forall|a: int, b: int|
                0 <= a < out@.len() && 0 <= b < rest@.len() ==> (#[trigger] out@[a]).0@
                    != (#[trigger] rest@[b]).0@,
            forall|a: int, b: int|
                0 <= a < b < out@.len() ==> lex_lt((#[trigger] out@[a]).0@, (#[trigger] out@[b]).0@),
        decreases rest.len(),
    {
        let ghost old_out = out@;
        let ghost old_rest = rest@;
        let p = rest.remove(0);
        let pos = country_insert_position(&out, &p.0);
        proof {
            if pos < old_out.len() {
                lemma_lex_le_total(old_out[pos as int].0@, p.0@);
            }
        }
        out.insert(pos, p);
        proof {
            // multiset bookkeeping
            assert(rest@ =~= old_rest.remove(0));
            assert(rest@.map_values(pview) =~= old_rest.map_values(pview).remove(0));
            assert(old_rest.map_values(pview).remove(0).to_multiset() == old_rest.map_values(
                pview,
            ).to_multiset().remove(old_rest.map_values(pview)[0]));
            assert(out@.map_values(pview) =~= old_out.map_values(pview).insert(
                pos as int,
                pair_view(p),
            ));
            lemma_to_multiset_insert(old_out.map_values(pview), pos as int, pair_view(p));
            assert(old_rest.map_values(pview)[0] == pair_view(p));
            assert(old_rest.map_values(pview).to_multiset().count(pair_view(p)) > 0) by {
                assert(old_rest.map_values(pview)[0] == pair_view(p));
                assert(old_rest.map_values(pview).contains(pair_view(p)));
            }
            assert(out@.map_values(pview).to_multiset().add(rest@.map_values(pview).to_multiset())
                =~= old_out.map_values(pview).to_multiset().add(
                old_rest.map_values(pview).to_multiset(),
            ));
            // the inserted key is new to `out`
            assert(forall|a: int|
                0 <= a < old_out.len() ==> (#[trigger] old_out[a]).0@ != p.0@) by {
                assert(old_rest[0].0@ == p.0@);
            }
            // strict sortedness
            assert forall|a: int, b: int| 0 <= a < b < out@.len() implies lex_lt(
                (#[trigger] out@[a]).0@,
                (#[trigger] out@[b]).0@,
            ) by {
                if b < pos {
                    assert(out@[a] == old_out[a] && out@[b] == old_out[b]);
                } else if a > pos {
                    assert(out@[a] == old_out[a - 1] && out@[b] == old_out[b - 1]);
                } else if a < pos && b == pos {
                    assert(out@[a] == old_out[a] && out@[b] == p);
                    assert(lex_le(old_out[a].0@, p.0@));
                } else if a < pos && b > pos {
                    assert(out@[a] == old_out[a] && out@[b] == old_out[b - 1]);
                } else if a == pos && b > pos {
                    assert(out@[a] == p && out@[b] == old_out[b - 1]);
                    assert(lex_le(p.0@, old_out[pos as int].0@));
                    if b - 1 > pos {
                        assert(lex_le(old_out[pos as int].0@, old_out[b - 1].0@));
                        lemma_lex_le_transitive(p.0@, old_out[pos as int].0@, old_out[b - 1].0@);
                    }
                }
            }
            // the remaining keys stay distinct from `out`
            assert forall|a: int, b: int|
                0 <= a < out@.len() && 0 <= b < rest@.len() implies (#[trigger] out@[a]).0@
                != (#[trigger] rest@[b]).0@ by {
                assert(rest@[b] == old_rest[b + 1]);
                if a != pos {
                    let a0 = if a < pos {
                        a
                    } else {
                        a - 1
                    };
                    assert(out@[a] == old_out[a0]);
                }
            }
        }
    }
    proof {
        assert(rest@.map_values(pview) =~= Seq::<(Seq<char>, Seq<RegionV>)>::empty());
        assert(origv.to_multiset() =~= out@.map_values(pview).to_multiset());
    }
    out
}

} // verus!
