//! What holds of the runtime across its operations.
use vstd::prelude::*;

use crate::retire::{eligible, holds, record_wf, RecordView};
use crate::runtime::{
    held, is_loaded, kept, lemma_kept_from, modules_distinct, publish_post, published_table,
    fresh_token, released_modules, reload_due, resolved, runtime_wf, sweep_post, tick_post, LoadOrder, RuntimeView,
};
use crate::table::{has_name, index_of, lookup_post, register_post, slots_wf, SlotView};
use crate::token::{HotswapError, Token};

verus! {

/// Every module a sweep releases comes from an eligible record of the queue.
pub proof fn lemma_released_from(rs: Seq<RecordView>)
    ensures
        forall|i: int|
            0 <= i < released_modules(rs).len() ==> exists|j: int|
                0 <= j < rs.len() && #[trigger] released_modules(rs)[i] == rs[j].module && eligible(rs[j]),
    decreases rs.len(),
{
    if rs.len() > 0 {
        let dl = rs.drop_last();
        lemma_released_from(dl);
        let rm = released_modules(rs);
        let rd = released_modules(dl);
        if eligible(rs.last()) {
            assert(rm == rd.push(rs.last().module));
        } else {
            assert(rm == rd);
        }
        assert forall|i: int| 0 <= i < rm.len() implies exists|j: int|
            0 <= j < rs.len() && #[trigger] rm[i] == rs[j].module && eligible(rs[j]) by {
            if i < rd.len() {
                let j = choose|j: int| 0 <= j < dl.len() && rd[i] == dl[j].module && eligible(dl[j]);
                assert(rs[j] == dl[j]);
                assert(rm[i] == rd[i]);
                assert(rm[i] == rs[j].module && eligible(rs[j]));
            } else {
                let j = rs.len() - 1;
                assert(rm[i] == rs[j].module && eligible(rs[j]));
            }
        }
    }
}

/// A sweep releases the module of every eligible record exactly once.
pub proof fn lemma_released_once(rs: Seq<RecordView>, k: int)
    requires
        modules_distinct(rs),
        0 <= k < rs.len(),
        eligible(rs[k]),
    ensures
        exists|i: int|
            0 <= i < released_modules(rs).len() && released_modules(rs)[i] == rs[k].module && forall|i2: int|
                0 <= i2 < released_modules(rs).len() && i2 != i ==> released_modules(rs)[i2] != rs[k].module,
    decreases rs.len(),
{
    let dl = rs.drop_last();
    let rm = released_modules(rs);
    assert(modules_distinct(dl)) by {
        assert forall|k1: int, k2: int| 0 <= k1 < k2 < dl.len() implies (#[trigger] dl[k1]).module
            != (#[trigger] dl[k2]).module by {
            assert(dl[k1] == rs[k1] && dl[k2] == rs[k2]);
        }
    }
    lemma_released_from(dl);
    if k == rs.len() - 1 {
        let i = rm.len() - 1;
        assert(rm == released_modules(dl).push(rs[k].module));
        assert forall|i2: int| 0 <= i2 < rm.len() && i2 != i implies rm[i2] != rs[k].module by {
            assert(rm[i2] == released_modules(dl)[i2]);
            let j = choose|j: int|
                0 <= j < dl.len() && #[trigger] released_modules(dl)[i2] == dl[j].module && eligible(dl[j]);
            assert(dl[j] == rs[j]);
            assert(rs[j].module != rs[k].module);
        }
        assert(rm[i] == rs[k].module);
    } else {
        assert(dl[k] == rs[k]);
        lemma_released_once(dl, k);
        let i = choose|i: int|
            0 <= i < released_modules(dl).len() && released_modules(dl)[i] == rs[k].module && forall|i2: int|
                0 <= i2 < released_modules(dl).len() && i2 != i ==> released_modules(dl)[i2] != rs[k].module;
        if eligible(rs.last()) {
            assert(rm == released_modules(dl).push(rs.last().module));
            assert(rs.last().module != rs[k].module);
            assert(rm[i] == rs[k].module);
            assert forall|i2: int| 0 <= i2 < rm.len() && i2 != i implies rm[i2] != rs[k].module by {
                if i2 < rm.len() - 1 {
                    assert(rm[i2] == released_modules(dl)[i2]);
                }
            }
        } else {
            assert(rm == released_modules(dl));
        }
        assert(rm[i] == rs[k].module);
    }
}

/// No use after unload: in every state of the runtime, a token that some
/// call holds points into a module that is still loaded.
pub proof fn law_no_use_after_unload(v: RuntimeView, t: Token)
    requires
        slots_wf(v.table),
        runtime_wf(v),
        held(v, t),
    ensures
        is_loaded(v, t.module),
{
    if !(t.slot < v.table.len() && v.table[t.slot as int].token == Some(t) && v.table[t.slot as int].calls > 0) {
        let k = choose|k: int| 0 <= k < v.retired.len() && holds(#[trigger] v.retired[k], t);
        let j = choose|j: int|
            0 <= j < v.retired[k].refs.len() && v.retired[k].refs[j].token == t && v.retired[k].refs[j].calls > 0;
        assert(record_wf(v.retired[k]));
        assert(v.retired[k].refs[j].token.module == v.retired[k].module);
    } else {
        assert(v.table[t.slot as int].token == Some(t));
    }
}

/// A sweep releases a module only when no call holds a token into it, and
/// the module is not loaded afterwards.
pub proof fn law_sweep_releases_unheld(pre: RuntimeView, post: RuntimeView, r: Seq<u64>, i: int, t: Token)
    requires
        slots_wf(pre.table),
        runtime_wf(pre),
        sweep_post(pre, post, r),
        0 <= i < r.len(),
        t.module == r[i],
    ensures
        !held(pre, t),
        !is_loaded(post, r[i]),
{
    lemma_released_from(pre.retired);
    let j = choose|j: int| 0 <= j < pre.retired.len() && r[i] == pre.retired[j].module && eligible(pre.retired[j]);
    if t.slot < pre.table.len() && pre.table[t.slot as int].token == Some(t) {
        assert(pre.current == Some(t.module));
        assert(pre.current != Some(pre.retired[j].module));
    }
    assert forall|k: int| 0 <= k < pre.retired.len() implies !holds(#[trigger] pre.retired[k], t) by {
        if holds(pre.retired[k], t) {
            let w = choose|w: int|
                0 <= w < pre.retired[k].refs.len() && pre.retired[k].refs[w].token == t && pre.retired[k].refs[w].calls
                    > 0;
            assert(record_wf(pre.retired[k]));
            assert(pre.retired[k].refs[w].token.module == pre.retired[k].module);
            if k != j {
                if k < j {
                    assert(pre.retired[k].module != pre.retired[j].module);
                } else {
                    assert(pre.retired[j].module != pre.retired[k].module);
                }
            }
            assert(pre.retired[j].refs[w].calls == 0);
        }
    }
    lemma_kept_from(pre.retired);
    assert forall|k: int| 0 <= k < post.retired.len() implies post.retired[k].module != r[i] by {
        let j2 = choose|j2: int| 0 <= j2 < pre.retired.len() && kept(pre.retired)[k] == pre.retired[j2] && !eligible(
            pre.retired[j2],
        );
        if j2 < j {
            assert(pre.retired[j2].module != pre.retired[j].module);
        } else if j < j2 {
            assert(pre.retired[j].module != pre.retired[j2].module);
        }
    }
    assert(pre.current != Some(pre.retired[j].module));
}

/// Fresh dispatch: after a publish of module `module`, a lookup of any
/// registered name hands out a token of `module`, at the address resolved
/// for that name.
pub proof fn law_fresh_dispatch(
    pre: RuntimeView,
    mid: RuntimeView,
    module: u64,
    modified: u64,
    addrs: Seq<Option<usize>>,
    name: Seq<char>,
    post: Seq<SlotView>,
    r: Result<Token, HotswapError>,
)
    requires
        publish_post(pre, mid, module, modified, addrs, Ok(())),
        has_name(mid.table, name),
        lookup_post(mid.table, post, name, r),
    ensures
        r is Ok,
        r->Ok_0.module == module,
        r->Ok_0.addr == addrs[index_of(mid.table, name)].unwrap(),
{
    assert(resolved(pre, addrs));
    let i = index_of(mid.table, name);
    assert(mid.table == published_table(pre.table, module, addrs));
    assert(mid.table[i].token == Some(fresh_token(module, i, addrs)));
}

/// Eventual retirement: once no call holds any token of a retired module,
/// the next sweep releases that module exactly once and it is no longer
/// loaded.
pub proof fn law_eventual_retirement(pre: RuntimeView, post: RuntimeView, r: Seq<u64>, k: int)
    requires
        slots_wf(pre.table),
        runtime_wf(pre),
        0 <= k < pre.retired.len(),
        eligible(pre.retired[k]),
        sweep_post(pre, post, r),
    ensures
        exists|i: int| 0 <= i < r.len() && r[i] == pre.retired[k].module && forall|i2: int|
            0 <= i2 < r.len() && i2 != i ==> r[i2] != pre.retired[k].module,
        !is_loaded(post, pre.retired[k].module),
{
    assert(modules_distinct(pre.retired));
    lemma_released_once(pre.retired, k);
    let i = choose|i: int|
        0 <= i < r.len() && r[i] == pre.retired[k].module && forall|i2: int|
            0 <= i2 < r.len() && i2 != i ==> r[i2] != pre.retired[k].module;
    law_sweep_releases_unheld(pre, post, r, i, Token { module: r[i], slot: 0, addr: 0 });
}

/// Idempotent registration: registering a name that is already there
/// changes nothing, so a lookup still finds the token published for it.
pub proof fn law_register_idempotent(
    pre: Seq<SlotView>,
    post: Seq<SlotView>,
    name: Seq<char>,
    r: int,
    after: Seq<SlotView>,
    found: Result<Token, HotswapError>,
)
    requires
        has_name(pre, name),
        register_post(pre, post, name, r),
        lookup_post(post, after, name, found),
    ensures
        post == pre,
        post[r].token == pre[r].token,
        lookup_post(pre, after, name, found),
{
}

/// Monotonic change detection: after a publish of the artifact modified at
/// `modified`, the next tick orders a reload only for a strictly later
/// observed time, and for every such time while copy numbers are left; after
/// a failed publish the time of the last published artifact still decides.
pub proof fn law_monotonic_change_detection(
    pre: RuntimeView,
    post: RuntimeView,
    module: u64,
    modified: u64,
    addrs: Seq<Option<usize>>,
    r: Result<(), HotswapError>,
    observed: u64,
    after: RuntimeView,
    release: Seq<u64>,
    load: Option<LoadOrder>,
)
    requires
        publish_post(pre, post, module, modified, addrs, r),
        tick_post(post, after, Some(observed), release, load),
    ensures
        r is Ok ==> (load is Some ==> observed > modified),
        r is Ok ==> (observed > modified && post.next_number < u64::MAX ==> load is Some),
        r is Err ==> post.last_loaded == pre.last_loaded,
        load is Some ==> reload_due(post.last_loaded, Some(observed)),
{
}

/// Partial-failure safety: where one registered function has no address in
/// the new module, the publish fails and no entry of the table changes.
pub proof fn law_partial_failure_safety(
    pre: RuntimeView,
    post: RuntimeView,
    module: u64,
    modified: u64,
    addrs: Seq<Option<usize>>,
    r: Result<(), HotswapError>,
    i: int,
)
    requires
        publish_post(pre, post, module, modified, addrs, r),
        0 <= i < addrs.len(),
        addrs[i] is None,
    ensures
        r == Err::<(), HotswapError>(HotswapError::SymbolResolutionFailure),
        post == pre,
        post.table == pre.table,
{
}

} // verus!
