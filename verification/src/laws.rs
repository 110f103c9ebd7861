use vstd::prelude::*;

use crate::model::addr_before;
use crate::model::flat_of_children;
use crate::model::flat_of_forest;
use crate::model::flat_of_node;
use crate::model::flatten_spec;
use crate::model::forest_count;
use crate::model::forest_has_node_at;
use crate::model::forest_node_at;
use crate::model::has_subnode_at;
use crate::model::node_count;
use crate::model::record_of;
use crate::model::subnode_at;
use crate::types::opt_text_view;
use crate::types::DebugCall;
use crate::types::FlatRecord;

verus! {

/// Whether the records of `rs` are sorted by strict pre-order precedence of
/// their trace addresses.
pub open spec fn preordered(rs: Seq<FlatRecord>) -> bool {
    forall|k1: int, k2: int|
        0 <= k1 < k2 < rs.len() ==> addr_before(
            (#[trigger] rs[k1]).trace_address,
            (#[trigger] rs[k2]).trace_address,
        )
}

proof fn lemma_node_len(c: DebugCall, addr: Seq<usize>)
    ensures
        flat_of_node(c, addr).len() == node_count(c),
    decreases c, 1int,
{
    lemma_children_len(c.calls@, addr, 0);
}

proof fn lemma_children_len(cs: Seq<DebugCall>, addr: Seq<usize>, j: int)
    ensures
        flat_of_children(cs, addr, j).len() == forest_count(cs, j),
    decreases cs, cs.len() - j,
{
    if 0 <= j < cs.len() {
        lemma_node_len(cs[j], addr.push(j as usize));
        lemma_children_len(cs, addr, j + 1);
    }
}

proof fn lemma_forest_len(calls: Seq<DebugCall>, i: int)
    ensures
        flat_of_forest(calls, i).len() == forest_count(calls, i),
    decreases calls.len() - i,
{
    if 0 <= i < calls.len() {
        lemma_node_len(calls[i], seq![i as usize]);
        lemma_forest_len(calls, i + 1);
    }
}

proof fn lemma_extend_prefix(ta: Seq<usize>, addr: Seq<usize>, j: usize)
    requires
        ta.len() >= addr.len() + 1,
        ta.subrange(0, addr.len() as int + 1) == addr.push(j),
    ensures
        ta.subrange(0, addr.len() as int) == addr,
        ta[addr.len() as int] == j,
{
    let l = addr.len() as int;
    assert(ta[l] == ta.subrange(0, l + 1)[l]);
    assert(ta.subrange(0, l) =~= addr) by {
        assert forall|i: int| 0 <= i < l implies ta.subrange(0, l)[i] == addr[i] by {
            assert(ta.subrange(0, l)[i] == ta[i]);
            assert(ta[i] == ta.subrange(0, l + 1)[i]);
            assert(addr.push(j)[i] == addr[i]);
        }
    }
}

proof fn lemma_node_shape(c: DebugCall, addr: Seq<usize>)
    ensures
        ({
            let rs = flat_of_node(c, addr);
            &&& rs.len() >= 1
            &&& rs[0] == record_of(c, addr)
            &&& forall|k: int|
                #![trigger rs[k]]
                1 <= k < rs.len() ==> {
                    let ta = rs[k].trace_address;
                    &&& ta.len() > addr.len()
                    &&& ta.subrange(0, addr.len() as int) == addr
                    &&& 0 <= ta[addr.len() as int] < c.calls@.len()
                }
            &&& preordered(rs)
        }),
    decreases c, 1int,
{
    broadcast use vstd::std_specs::vec::axiom_spec_len;

    let rs = flat_of_node(c, addr);
    let cb = flat_of_children(c.calls@, addr, 0);
    assert(vstd::std_specs::vec::spec_vec_len(&c.calls) == c.calls@.len());
    lemma_children_shape(c.calls@, addr, 0);
    assert(rs == seq![record_of(c, addr)] + cb);
    assert(rs[0] == record_of(c, addr));
    assert forall|k: int| #![trigger rs[k]] 1 <= k < rs.len() implies {
        let ta = rs[k].trace_address;
        &&& ta.len() > addr.len()
        &&& ta.subrange(0, addr.len() as int) == addr
        &&& 0 <= ta[addr.len() as int] < c.calls@.len()
    } by {
        assert(rs[k] == cb[k - 1]);
    }
    assert forall|k1: int, k2: int| 0 <= k1 < k2 < rs.len() implies addr_before(
        (#[trigger] rs[k1]).trace_address,
        (#[trigger] rs[k2]).trace_address,
    ) by {
        let ta2 = rs[k2].trace_address;
        if k1 == 0 {
            assert(rs[k2] == cb[k2 - 1]);
            assert(addr.len() < ta2.len() && addr == ta2.subrange(0, addr.len() as int));
        } else {
            assert(rs[k1] == cb[k1 - 1]);
            assert(rs[k2] == cb[k2 - 1]);
            assert(addr_before(cb[k1 - 1].trace_address, cb[k2 - 1].trace_address));
        }
    }
}

proof fn lemma_children_shape(cs: Seq<DebugCall>, addr: Seq<usize>, j: int)
    requires
        0 <= j,
        cs.len() <= usize::MAX,
    ensures
        ({
            let rs = flat_of_children(cs, addr, j);
            &&& forall|k: int|
                #![trigger rs[k]]
                0 <= k < rs.len() ==> {
                    let ta = rs[k].trace_address;
                    &&& ta.len() > addr.len()
                    &&& ta.subrange(0, addr.len() as int) == addr
                    &&& j <= ta[addr.len() as int] < cs.len()
                }
            &&& preordered(rs)
        }),
    decreases cs, cs.len() - j,
{
    if j < cs.len() {
        let ju = j as usize;
        let caddr = addr.push(ju);
        let rs = flat_of_children(cs, addr, j);
        let block = flat_of_node(cs[j], caddr);
        let rest = flat_of_children(cs, addr, j + 1);
        lemma_node_shape(cs[j], caddr);
        lemma_children_shape(cs, addr, j + 1);
        assert(rs == block + rest);
        assert forall|k: int| 0 <= k < block.len() implies {
            let ta = (#[trigger] block[k]).trace_address;
            &&& ta.len() > addr.len()
            &&& ta.subrange(0, addr.len() as int) == addr
            &&& ta[addr.len() as int] == ju
        } by {
            let ta = block[k].trace_address;
            if k == 0 {
                assert(ta == caddr);
                assert(ta.subrange(0, addr.len() as int + 1) =~= caddr);
                lemma_extend_prefix(ta, addr, ju);
            } else {
                assert(ta.subrange(0, caddr.len() as int) == caddr);
                lemma_extend_prefix(ta, addr, ju);
            }
        }
        assert forall|k: int| #![trigger rs[k]] 0 <= k < rs.len() implies {
            let ta = rs[k].trace_address;
            &&& ta.len() > addr.len()
            &&& ta.subrange(0, addr.len() as int) == addr
            &&& j <= ta[addr.len() as int] < cs.len()
        } by {
            if k < block.len() {
                assert(rs[k] == block[k]);
            } else {
                assert(rs[k] == rest[k - block.len()]);
            }
        }
        assert forall|k1: int, k2: int| 0 <= k1 < k2 < rs.len() implies addr_before(
            (#[trigger] rs[k1]).trace_address,
            (#[trigger] rs[k2]).trace_address,
        ) by {
            let l = addr.len() as int;
            let ta1 = rs[k1].trace_address;
            let ta2 = rs[k2].trace_address;
            if k2 < block.len() {
                assert(rs[k1] == block[k1]);
                assert(rs[k2] == block[k2]);
                assert(addr_before(ta1, ta2));
            } else if k1 >= block.len() {
                assert(rs[k1] == rest[k1 - block.len()]);
                assert(rs[k2] == rest[k2 - block.len()]);
                assert(addr_before(ta1, ta2));
            } else {
                assert(rs[k1] == block[k1]);
                assert(rs[k2] == rest[k2 - block.len()]);
                assert(ta1.subrange(0, l) =~= ta2.subrange(0, l));
                assert(ta1[l] < ta2[l]);
            }
        }
    }
}

proof fn lemma_forest_shape(calls: Seq<DebugCall>, i: int)
    requires
        0 <= i,
        calls.len() <= usize::MAX,
    ensures
        ({
            let rs = flat_of_forest(calls, i);
            &&& forall|k: int|
                #![trigger rs[k]]
                0 <= k < rs.len() ==> {
                    let ta = rs[k].trace_address;
                    &&& ta.len() >= 1
                    &&& i <= ta[0] < calls.len()
                }
            &&& preordered(rs)
        }),
    decreases calls.len() - i,
{
    if i < calls.len() {
        let iu = i as usize;
        let root = seq![iu];
        let rs = flat_of_forest(calls, i);
        let block = flat_of_node(calls[i], root);
        let rest = flat_of_forest(calls, i + 1);
        lemma_node_shape(calls[i], root);
        lemma_forest_shape(calls, i + 1);
        assert(rs == block + rest);
        assert forall|k: int| 0 <= k < block.len() implies {
            let ta = (#[trigger] block[k]).trace_address;
            &&& ta.len() >= 1
            &&& ta[0] == iu
        } by {
            let ta = block[k].trace_address;
            if k == 0 {
                assert(ta == root);
            } else {
                assert(ta.subrange(0, 1) == root);
                assert(ta[0] == ta.subrange(0, 1)[0]);
            }
        }
        assert forall|k: int| #![trigger rs[k]] 0 <= k < rs.len() implies {
            let ta = rs[k].trace_address;
            &&& ta.len() >= 1
            &&& i <= ta[0] < calls.len()
        } by {
            if k < block.len() {
                assert(rs[k] == block[k]);
            } else {
                assert(rs[k] == rest[k - block.len()]);
            }
        }
        assert forall|k1: int, k2: int| 0 <= k1 < k2 < rs.len() implies addr_before(
            (#[trigger] rs[k1]).trace_address,
            (#[trigger] rs[k2]).trace_address,
        ) by {
            let ta1 = rs[k1].trace_address;
            let ta2 = rs[k2].trace_address;
            if k2 < block.len() {
                assert(rs[k1] == block[k1]);
                assert(rs[k2] == block[k2]);
                assert(addr_before(ta1, ta2));
            } else if k1 >= block.len() {
                assert(rs[k1] == rest[k1 - block.len()]);
                assert(rs[k2] == rest[k2 - block.len()]);
                assert(addr_before(ta1, ta2));
            } else {
                assert(rs[k1] == block[k1]);
                assert(rs[k2] == rest[k2 - block.len()]);
                assert(ta1.subrange(0, 0) =~= ta2.subrange(0, 0));
                assert(ta1[0] < ta2[0]);
            }
        }
    }
}

/// Order invariant: the flat trace is sorted by strict pre-order precedence of
/// trace addresses — every record comes before the records of its descendants
/// and before the subtree blocks of its later siblings.
pub proof fn lemma_order_invariant(calls: Seq<DebugCall>, k1: int, k2: int)
    requires
        calls.len() <= usize::MAX,
        0 <= k1 < k2 < flatten_spec(calls).len(),
    ensures
        addr_before(
            flatten_spec(calls)[k1].trace_address,
            flatten_spec(calls)[k2].trace_address,
        ),
{
    lemma_forest_shape(calls, 0);
}

proof fn lemma_addr_before_ne(a: Seq<usize>, b: Seq<usize>)
    requires
        addr_before(a, b),
    ensures
        a != b,
{
    if a.len() < b.len() && a == b.subrange(0, a.len() as int) {
        assert(a.len() != b.len());
    } else {
        let i = choose|i: int|
            0 <= i < a.len() && i < b.len() && a.subrange(0, i) == b.subrange(0, i) && a[i] < b[i];
        assert(a[i] != b[i]);
    }
}

/// Trace-address uniqueness: any two distinct records of one flat trace carry
/// distinct trace addresses.
pub proof fn lemma_trace_address_unique(calls: Seq<DebugCall>, k1: int, k2: int)
    requires
        calls.len() <= usize::MAX,
        0 <= k1 < flatten_spec(calls).len(),
        0 <= k2 < flatten_spec(calls).len(),
        k1 != k2,
    ensures
        flatten_spec(calls)[k1].trace_address != flatten_spec(calls)[k2].trace_address,
{
    if k1 < k2 {
        lemma_order_invariant(calls, k1, k2);
        lemma_addr_before_ne(
            flatten_spec(calls)[k1].trace_address,
            flatten_spec(calls)[k2].trace_address,
        );
    } else {
        lemma_order_invariant(calls, k2, k1);
        lemma_addr_before_ne(
            flatten_spec(calls)[k2].trace_address,
            flatten_spec(calls)[k1].trace_address,
        );
    }
}

/// Pre-order placement: a record whose trace address is a strict prefix of
/// another record's trace address (its ancestor in the call tree) stands
/// earlier in the flat trace.
pub proof fn lemma_parent_before_descendant(calls: Seq<DebugCall>, k1: int, k2: int)
    requires
        calls.len() <= usize::MAX,
        0 <= k1 < flatten_spec(calls).len(),
        0 <= k2 < flatten_spec(calls).len(),
        k1 != k2,
        flatten_spec(calls)[k1].trace_address.len() < flatten_spec(calls)[k2].trace_address.len(),
        flatten_spec(calls)[k1].trace_address == flatten_spec(calls)[k2].trace_address.subrange(
            0,
            flatten_spec(calls)[k1].trace_address.len() as int,
        ),
    ensures
        k1 < k2,
{
    let a = flatten_spec(calls)[k1].trace_address;
    let b = flatten_spec(calls)[k2].trace_address;
    if k2 < k1 {
        lemma_order_invariant(calls, k2, k1);
        if b.len() < a.len() && b == a.subrange(0, b.len() as int) {
            assert(false);
        } else {
            let i = choose|i: int|
                0 <= i < b.len() && i < a.len() && b.subrange(0, i) == a.subrange(0, i) && b[i]
                    < a[i];
            assert(a[i] == b.subrange(0, a.len() as int)[i]);
            assert(false);
        }
    }
}

proof fn lemma_between_keeps_prefix(x: Seq<usize>, y: Seq<usize>, z: Seq<usize>)
    requires
        addr_before(x, y),
        addr_before(y, z),
        x.len() <= z.len(),
        x == z.subrange(0, x.len() as int),
    ensures
        x.len() < y.len(),
        x == y.subrange(0, x.len() as int),
{
    if !(x.len() < y.len() && x == y.subrange(0, x.len() as int)) {
        let i = choose|i: int|
            0 <= i < x.len() && i < y.len() && x.subrange(0, i) == y.subrange(0, i) && x[i] < y[i];
        assert(x[i] == z.subrange(0, x.len() as int)[i]);
        if y.len() < z.len() && y == z.subrange(0, y.len() as int) {
            assert(y[i] == z.subrange(0, y.len() as int)[i]);
            assert(false);
        } else {
            let i2 = choose|i2: int|
                0 <= i2 < y.len() && i2 < z.len() && y.subrange(0, i2) == z.subrange(0, i2) && y[i2]
                    < z[i2];
            if i2 < i {
                assert(x.subrange(0, i)[i2] == y.subrange(0, i)[i2]);
                assert(x[i2] == z.subrange(0, x.len() as int)[i2]);
                assert(y.subrange(0, i2) =~= z.subrange(0, i2));
                assert(false);
            } else if i2 == i {
                assert(false);
            } else {
                assert(y.subrange(0, i2)[i] == z.subrange(0, i2)[i]);
                assert(false);
            }
        }
    }
}

/// Contiguity of subtree blocks: every record standing between a record and
/// one of that record's descendants is itself a descendant of it — so the
/// records of one subtree form one contiguous block of the flat trace.
pub proof fn lemma_subtree_block_contiguous(calls: Seq<DebugCall>, k1: int, k2: int, k3: int)
    requires
        calls.len() <= usize::MAX,
        0 <= k1 < k2 < k3 < flatten_spec(calls).len(),
        flatten_spec(calls)[k1].trace_address.len() <= flatten_spec(
            calls,
        )[k3].trace_address.len(),
        flatten_spec(calls)[k1].trace_address == flatten_spec(calls)[k3].trace_address.subrange(
            0,
            flatten_spec(calls)[k1].trace_address.len() as int,
        ),
    ensures
        flatten_spec(calls)[k1].trace_address.len() < flatten_spec(calls)[k2].trace_address.len(),
        flatten_spec(calls)[k1].trace_address == flatten_spec(calls)[k2].trace_address.subrange(
            0,
            flatten_spec(calls)[k1].trace_address.len() as int,
        ),
{
    lemma_order_invariant(calls, k1, k2);
    lemma_order_invariant(calls, k2, k3);
    lemma_between_keeps_prefix(
        flatten_spec(calls)[k1].trace_address,
        flatten_spec(calls)[k2].trace_address,
        flatten_spec(calls)[k3].trace_address,
    );
}

/// Count preservation: the flat trace of a forest has exactly one record per
/// node, the top-level roots included.
pub proof fn lemma_count_preservation(calls: Seq<DebugCall>)
    ensures
        flatten_spec(calls).len() == forest_count(calls, 0),
{
    lemma_forest_len(calls, 0);
}

proof fn lemma_node_faithful(c: DebugCall, addr: Seq<usize>, k: int)
    requires
        0 <= k < flat_of_node(c, addr).len(),
    ensures
        ({
            let rec = flat_of_node(c, addr)[k];
            let rel = rec.trace_address.skip(addr.len() as int);
            &&& rec.trace_address.len() >= addr.len()
            &&& rec.trace_address.subrange(0, addr.len() as int) == addr
            &&& has_subnode_at(c, rel)
            &&& rec == record_of(subnode_at(c, rel), rec.trace_address)
        }),
    decreases c, 1int,
{
    broadcast use vstd::std_specs::vec::axiom_spec_len;

    let rs = flat_of_node(c, addr);
    let cb = flat_of_children(c.calls@, addr, 0);
    assert(vstd::std_specs::vec::spec_vec_len(&c.calls) == c.calls@.len());
    let l = addr.len() as int;
    if k == 0 {
        let rec = rs[0];
        assert(rec == record_of(c, addr));
        assert(rec.trace_address.skip(l) =~= Seq::<usize>::empty());
        assert(rec.trace_address.subrange(0, l) =~= addr);
    } else {
        assert(rs[k] == cb[k - 1]);
        lemma_children_faithful(c.calls@, addr, 0, k - 1);
        let rec = cb[k - 1];
        let ta = rec.trace_address;
        let idx = ta[l];
        let relc = ta.skip(l + 1);
        let rel = ta.skip(l);
        assert(rel[0] == ta[l]);
        assert(rel.drop_first() =~= relc);
        assert(has_subnode_at(c, rel));
        assert(subnode_at(c, rel) == subnode_at(c.calls@[idx as int], relc));
    }
}

proof fn lemma_children_faithful(cs: Seq<DebugCall>, addr: Seq<usize>, j: int, k: int)
    requires
        0 <= j,
        cs.len() <= usize::MAX,
        0 <= k < flat_of_children(cs, addr, j).len(),
    ensures
        ({
            let rec = flat_of_children(cs, addr, j)[k];
            let ta = rec.trace_address;
            let l = addr.len() as int;
            &&& ta.len() > addr.len()
            &&& ta.subrange(0, l) == addr
            &&& j <= ta[l] < cs.len()
            &&& has_subnode_at(cs[ta[l] as int], ta.skip(l + 1))
            &&& rec == record_of(subnode_at(cs[ta[l] as int], ta.skip(l + 1)), ta)
        }),
    decreases cs, cs.len() - j,
{
    let rs = flat_of_children(cs, addr, j);
    let ju = j as usize;
    let caddr = addr.push(ju);
    let block = flat_of_node(cs[j], caddr);
    let rest = flat_of_children(cs, addr, j + 1);
    let l = addr.len() as int;
    if k < block.len() {
        assert(rs[k] == block[k]);
        lemma_node_faithful(cs[j], caddr, k);
        let rec = block[k];
        let ta = rec.trace_address;
        lemma_extend_prefix(ta, addr, ju);
        assert(ta.skip(caddr.len() as int) == ta.skip(l + 1));
    } else {
        assert(rs[k] == rest[k - block.len()]);
        lemma_children_faithful(cs, addr, j + 1, k - block.len());
    }
}

proof fn lemma_forest_faithful(calls: Seq<DebugCall>, i: int, k: int)
    requires
        0 <= i,
        calls.len() <= usize::MAX,
        0 <= k < flat_of_forest(calls, i).len(),
    ensures
        ({
            let rec = flat_of_forest(calls, i)[k];
            let ta = rec.trace_address;
            &&& ta.len() >= 1
            &&& i <= ta[0] < calls.len()
            &&& has_subnode_at(calls[ta[0] as int], ta.drop_first())
            &&& rec == record_of(subnode_at(calls[ta[0] as int], ta.drop_first()), ta)
        }),
    decreases calls.len() - i,
{
    let rs = flat_of_forest(calls, i);
    let iu = i as usize;
    let root = seq![iu];
    let block = flat_of_node(calls[i], root);
    let rest = flat_of_forest(calls, i + 1);
    if k < block.len() {
        assert(rs[k] == block[k]);
        lemma_node_faithful(calls[i], root, k);
        let rec = block[k];
        let ta = rec.trace_address;
        assert(ta[0] == ta.subrange(0, 1)[0]);
        assert(ta.skip(1) =~= ta.drop_first());
    } else {
        assert(rs[k] == rest[k - block.len()]);
        lemma_forest_faithful(calls, i + 1, k - block.len());
    }
}

proof fn lemma_node_complete(c: DebugCall, addr: Seq<usize>, rel: Seq<usize>)
    requires
        has_subnode_at(c, rel),
    ensures
        exists|k: int|
            0 <= k < flat_of_node(c, addr).len() && flat_of_node(c, addr)[k].trace_address == addr
                + rel,
    decreases c, 1int,
{
    broadcast use vstd::std_specs::vec::axiom_spec_len;

    let rs = flat_of_node(c, addr);
    let cb = flat_of_children(c.calls@, addr, 0);
    assert(vstd::std_specs::vec::spec_vec_len(&c.calls) == c.calls@.len());
    if rel.len() == 0 {
        assert(addr + rel =~= addr);
        assert(rs[0].trace_address == addr + rel);
    } else {
        lemma_children_complete(c.calls@, addr, 0, rel);
        let k = choose|k: int| 0 <= k < cb.len() && cb[k].trace_address == addr + rel;
        assert(rs[k + 1] == cb[k]);
        assert(rs[k + 1].trace_address == addr + rel);
    }
}

proof fn lemma_children_complete(cs: Seq<DebugCall>, addr: Seq<usize>, j: int, rel: Seq<usize>)
    requires
        0 <= j,
        cs.len() <= usize::MAX,
        rel.len() >= 1,
        j <= rel[0] < cs.len(),
        has_subnode_at(cs[rel[0] as int], rel.drop_first()),
    ensures
        exists|k: int|
            0 <= k < flat_of_children(cs, addr, j).len() && flat_of_children(
                cs,
                addr,
                j,
            )[k].trace_address == addr + rel,
    decreases cs, cs.len() - j,
{
    let rs = flat_of_children(cs, addr, j);
    let ju = j as usize;
    let block = flat_of_node(cs[j], addr.push(ju));
    let rest = flat_of_children(cs, addr, j + 1);
    if rel[0] == j {
        lemma_node_complete(cs[j], addr.push(ju), rel.drop_first());
        let k = choose|k: int|
            0 <= k < block.len() && block[k].trace_address == addr.push(ju) + rel.drop_first();
        assert(addr.push(ju) + rel.drop_first() =~= addr + rel);
        assert(rs[k] == block[k]);
        assert(rs[k].trace_address == addr + rel);
    } else {
        lemma_children_complete(cs, addr, j + 1, rel);
        let k = choose|k: int| 0 <= k < rest.len() && rest[k].trace_address == addr + rel;
        assert(rs[k + block.len()] == rest[k]);
        assert(rs[k + block.len()].trace_address == addr + rel);
    }
}

proof fn lemma_forest_complete(calls: Seq<DebugCall>, i: int, ta: Seq<usize>)
    requires
        0 <= i,
        calls.len() <= usize::MAX,
        ta.len() >= 1,
        i <= ta[0] < calls.len(),
        has_subnode_at(calls[ta[0] as int], ta.drop_first()),
    ensures
        exists|k: int|
            0 <= k < flat_of_forest(calls, i).len() && flat_of_forest(calls, i)[k].trace_address
                == ta,
    decreases calls.len() - i,
{
    let rs = flat_of_forest(calls, i);
    let iu = i as usize;
    let block = flat_of_node(calls[i], seq![iu]);
    let rest = flat_of_forest(calls, i + 1);
    if ta[0] == i {
        lemma_node_complete(calls[i], seq![iu], ta.drop_first());
        let k = choose|k: int|
            0 <= k < block.len() && block[k].trace_address == seq![iu] + ta.drop_first();
        assert(seq![iu] + ta.drop_first() =~= ta);
        assert(rs[k] == block[k]);
        assert(rs[k].trace_address == ta);
    } else {
        lemma_forest_complete(calls, i + 1, ta);
        let k = choose|k: int| 0 <= k < rest.len() && rest[k].trace_address == ta;
        assert(rs[k + block.len()] == rest[k]);
        assert(rs[k + block.len()].trace_address == ta);
    }
}

/// Completeness: every node of the forest is recorded — each trace address
/// that names a node of the input is carried by some record of the flat trace.
pub proof fn lemma_every_node_recorded(calls: Seq<DebugCall>, ta: Seq<usize>)
    requires
        calls.len() <= usize::MAX,
        forest_has_node_at(calls, ta),
    ensures
        exists|k: int|
            0 <= k < flatten_spec(calls).len() && flatten_spec(calls)[k].trace_address == ta,
{
    lemma_forest_complete(calls, 0, ta);
    let k = choose|k: int|
        0 <= k < flat_of_forest(calls, 0).len() && flat_of_forest(calls, 0)[k].trace_address == ta;
    assert(flatten_spec(calls)[k].trace_address == ta);
}

/// Record faithfulness: every record of the flat trace is exactly the record
/// of the node its trace address names — the address names a node of the
/// input forest, and the record is that node's, at that address.
pub proof fn lemma_record_faithful(calls: Seq<DebugCall>, k: int)
    requires
        calls.len() <= usize::MAX,
        0 <= k < flatten_spec(calls).len(),
    ensures
        forest_has_node_at(calls, flatten_spec(calls)[k].trace_address),
        flatten_spec(calls)[k] == record_of(
            forest_node_at(calls, flatten_spec(calls)[k].trace_address),
            flatten_spec(calls)[k].trace_address,
        ),
{
    lemma_forest_faithful(calls, 0, k);
}

/// Subtraces correctness: each record's `subtraces` equals the number of
/// direct children of the node its trace address names.
pub proof fn lemma_subtraces_correct(calls: Seq<DebugCall>, k: int)
    requires
        calls.len() <= usize::MAX,
        0 <= k < flatten_spec(calls).len(),
    ensures
        forest_has_node_at(calls, flatten_spec(calls)[k].trace_address),
        flatten_spec(calls)[k].subtraces == forest_node_at(
            calls,
            flatten_spec(calls)[k].trace_address,
        ).calls@.len(),
{
    lemma_record_faithful(calls, k);
}

/// Field fidelity: every copied field of each record is value-identical to
/// the corresponding field of the node its trace address names.
pub proof fn lemma_field_fidelity(calls: Seq<DebugCall>, k: int)
    requires
        calls.len() <= usize::MAX,
        0 <= k < flatten_spec(calls).len(),
    ensures
        forest_has_node_at(calls, flatten_spec(calls)[k].trace_address),
        ({
            let rec = flatten_spec(calls)[k];
            let n = forest_node_at(calls, rec.trace_address);
            &&& rec.call_type == n.call_type
            &&& rec.from == n.from
            &&& rec.to == n.to
            &&& rec.gas == n.gas
            &&& rec.value == n.value
            &&& rec.input == n.input@
            &&& rec.output == n.output@
            &&& rec.gas_used == n.gas_used
            &&& rec.error == opt_text_view(n.error)
            &&& rec.revert_reason == opt_text_view(n.revert_reason)
        }),
{
    lemma_record_faithful(calls, k);
}

} // verus!
