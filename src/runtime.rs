use vstd::prelude::*;

use crate::retire::{eligible, holds, one_given_back, record_wf, Filed, RecordView, RefManager};
use crate::table::{given_back, lookup_post, register_post, room_for_call, PointerTable, SlotView};
use crate::token::{HotswapError, Token};

verus! {

/// The whole runtime as a mathematical value.
///
/// `current` is the number of the module the table dispatches into,
/// `retired` the queue of records of superseded modules, `next_number` the
/// number the next module copy will get, and `last_loaded` the modification
/// time of the artifact that was last published.
pub struct RuntimeView {
    pub table: Seq<SlotView>,
    pub current: Option<u64>,
    pub retired: Seq<RecordView>,
    pub next_number: u64,
    pub last_loaded: Option<u64>,
}

/// Module `m` is still loaded: it is current, or a record keeps it.
pub open spec fn is_loaded(v: RuntimeView, m: u64) -> bool {
    v.current == Some(m) || exists|k: int| 0 <= k < v.retired.len() && v.retired[k].module == m
}

/// Some call holds a clone of `t`, through the table or through a record.
pub open spec fn held(v: RuntimeView, t: Token) -> bool {
    ||| (t.slot < v.table.len() && v.table[t.slot as int].token == Some(t) && v.table[t.slot as int].calls > 0)
    ||| exists|k: int| 0 <= k < v.retired.len() && holds(#[trigger] v.retired[k], t)
}

/// The invariant of the runtime: published tokens point into the current
/// module, every record keeps its own module, no module is kept twice, and
/// every module number was handed out by the counter.
pub open spec fn runtime_wf(v: RuntimeView) -> bool {
    &&& forall|i: int| 0 <= i < v.table.len() ==> match #[trigger] v.table[i].token {
        Some(t) => v.current == Some(t.module),
        None => true,
    }
    &&& forall|k: int| 0 <= k < v.retired.len() ==> record_wf(#[trigger] v.retired[k])
    &&& forall|k: int| 0 <= k < v.retired.len() ==> v.current != Some((#[trigger] v.retired[k]).module)
    &&& forall|k: int| 0 <= k < v.retired.len() ==> (#[trigger] v.retired[k]).module < v.next_number
    &&& forall|k1: int, k2: int|
        0 <= k1 < k2 < v.retired.len() ==> (#[trigger] v.retired[k1]).module != (#[trigger] v.retired[k2]).module
    &&& match v.current {
        Some(m) => m < v.next_number,
        None => true,
    }
}

/// `post` is `pre` with one call on `t` ended in the table.
pub open spec fn given_back_in_table(pre: RuntimeView, post: RuntimeView, t: Token) -> bool {
    &&& t.slot < pre.table.len()
    &&& pre.table[t.slot as int].token == Some(t)
    &&& pre.table[t.slot as int].calls > 0
    &&& post.table == pre.table.update(t.slot as int, given_back(pre.table[t.slot as int]))
    &&& post.retired == pre.retired
}

/// `post` is `pre` with one call on `t` ended in one of the records.
pub open spec fn given_back_in_record(pre: RuntimeView, post: RuntimeView, t: Token) -> bool {
    exists|k: int|
        0 <= k < pre.retired.len() && #[trigger] one_given_back(pre.retired[k], post.retired[k], t)
            && post.retired == pre.retired.update(k, post.retired[k]) && post.table == pre.table
}

/// `post` is `pre` with one call on `t` ended, wherever `t` is held.
pub open spec fn release_post(pre: RuntimeView, post: RuntimeView, t: Token) -> bool {
    &&& post.current == pre.current
    &&& post.next_number == pre.next_number
    &&& post.last_loaded == pre.last_loaded
    &&& given_back_in_table(pre, post, t) || given_back_in_record(pre, post, t)
}

/// Whether a reload is due: the artifact's observed modification time is
/// known and strictly later than that of the last published artifact.
pub open spec fn reload_due(last_loaded: Option<u64>, observed: Option<u64>) -> bool {
    match observed {
        None => false,
        Some(o) => match last_loaded {
            None => true,
            Some(l) => o > l,
        },
    }
}

/// The tokens of `slots` that a publish supersedes, in table order, each with
/// the calls that still hold it.
pub open spec fn superseded(slots: Seq<SlotView>) -> Seq<Filed>
    decreases slots.len(),
{
    if slots.len() == 0 {
        Seq::empty()
    } else {
        let prev = superseded(slots.drop_last());
        match slots.last().token {
            Some(t) => prev.push(Filed { token: t, calls: slots.last().calls }),
            None => prev,
        }
    }
}

/// Every registered function has an address in the new module.
pub open spec fn resolved(v: RuntimeView, addrs: Seq<Option<usize>>) -> bool {
    &&& addrs.len() == v.table.len()
    &&& forall|i: int| 0 <= i < addrs.len() ==> (#[trigger] addrs[i]) is Some
}

/// The token published for entry `i` of module `module`.
pub open spec fn fresh_token(module: u64, i: int, addrs: Seq<Option<usize>>) -> Token {
    Token { module, slot: i as usize, addr: addrs[i].unwrap() }
}

/// The table after every entry got the token of module `module`.
pub open spec fn published_table(table: Seq<SlotView>, module: u64, addrs: Seq<Option<usize>>) -> Seq<SlotView> {
    Seq::new(
        table.len(),
        |i: int| SlotView { name: table[i].name, token: Some(fresh_token(module, i, addrs)), calls: 0 },
    )
}

/// The runtime after module `module`, built from the artifact modified at
/// `modified`, was published: the table dispatches into it, and the module
/// it superseded, if any, sits at the end of the queue with its tokens.
pub open spec fn published(pre: RuntimeView, module: u64, modified: u64, addrs: Seq<Option<usize>>) -> RuntimeView {
    RuntimeView {
        table: published_table(pre.table, module, addrs),
        current: Some(module),
        retired: match pre.current {
            Some(m) => pre.retired.push(RecordView { module: m, refs: superseded(pre.table) }),
            None => pre.retired,
        },
        next_number: pre.next_number,
        last_loaded: Some(modified),
    }
}

/// `publish` took the runtime from `pre` to `post` and returned `r`: all
/// entries move to the new module, or, where one address is missing, none does.
pub open spec fn publish_post(
    pre: RuntimeView,
    post: RuntimeView,
    module: u64,
    modified: u64,
    addrs: Seq<Option<usize>>,
    r: Result<(), HotswapError>,
) -> bool {
    if resolved(pre, addrs) {
        r == Ok::<(), HotswapError>(()) && post == published(pre, module, modified, addrs)
    } else {
        r == Err::<(), HotswapError>(HotswapError::SymbolResolutionFailure) && post == pre
    }
}

/// The records of `rs` that a sweep keeps: those a call still depends on.
pub open spec fn kept(rs: Seq<RecordView>) -> Seq<RecordView>
    decreases rs.len(),
{
    if rs.len() == 0 {
        Seq::empty()
    } else if eligible(rs.last()) {
        kept(rs.drop_last())
    } else {
        kept(rs.drop_last()).push(rs.last())
    }
}

/// The modules of the records of `rs` that a sweep retires, in queue order.
pub open spec fn released_modules(rs: Seq<RecordView>) -> Seq<u64>
    decreases rs.len(),
{
    if rs.len() == 0 {
        Seq::empty()
    } else if eligible(rs.last()) {
        released_modules(rs.drop_last()).push(rs.last().module)
    } else {
        released_modules(rs.drop_last())
    }
}

/// `sweep` took the runtime from `pre` to `post` and returned `r`: every
/// eligible record left the queue and its module is to be released, every
/// other record stayed, in order.
pub open spec fn sweep_post(pre: RuntimeView, post: RuntimeView, r: Seq<u64>) -> bool {
    &&& post == RuntimeView { retired: kept(pre.retired), ..pre }
    &&& r == released_modules(pre.retired)
}

/// No two records of `rs` keep the same module.
pub open spec fn modules_distinct(rs: Seq<RecordView>) -> bool {
    forall|k1: int, k2: int| 0 <= k1 < k2 < rs.len() ==> (#[trigger] rs[k1]).module != (#[trigger] rs[k2]).module
}

/// Each record a sweep keeps is an ineligible record of the queue.
pub proof fn lemma_kept_from(rs: Seq<RecordView>)
    ensures
        kept(rs).len() <= rs.len(),
        forall|k: int|
            0 <= k < kept(rs).len() ==> exists|j: int|
                0 <= j < rs.len() && #[trigger] kept(rs)[k] == rs[j] && !eligible(rs[j]),
    decreases rs.len(),
{
    if rs.len() > 0 {
        let dl = rs.drop_last();
        lemma_kept_from(dl);
        assert forall|k: int| 0 <= k < kept(rs).len() implies exists|j: int|
            0 <= j < rs.len() && #[trigger] kept(rs)[k] == rs[j] && !eligible(rs[j]) by {
            if k < kept(dl).len() {
                let j = choose|j: int| 0 <= j < dl.len() && kept(dl)[k] == dl[j] && !eligible(dl[j]);
                assert(rs[j] == dl[j]);
            } else {
                assert(kept(rs)[k] == rs[rs.len() - 1]);
            }
        }
    }
}

/// A sweep keeps no module twice.
pub proof fn lemma_kept_distinct(rs: Seq<RecordView>)
    requires
        modules_distinct(rs),
    ensures
        modules_distinct(kept(rs)),
    decreases rs.len(),
{
    if rs.len() > 0 {
        let dl = rs.drop_last();
        assert(modules_distinct(dl)) by {
            assert forall|k1: int, k2: int| 0 <= k1 < k2 < dl.len() implies (#[trigger] dl[k1]).module
                != (#[trigger] dl[k2]).module by {
                assert(dl[k1] == rs[k1] && dl[k2] == rs[k2]);
            }
        }
        lemma_kept_distinct(dl);
        lemma_kept_from(dl);
        if !eligible(rs.last()) {
            let kr = kept(rs);
            assert forall|k1: int, k2: int| 0 <= k1 < k2 < kr.len() implies (#[trigger] kr[k1]).module
                != (#[trigger] kr[k2]).module by {
                if k2 == kr.len() - 1 {
                    let j = choose|j: int| 0 <= j < dl.len() && kept(dl)[k1] == dl[j] && !eligible(dl[j]);
                    assert(kr[k1] == kept(dl)[k1]);
                    assert(dl[j] == rs[j]);
                    assert(kr[k2] == rs[rs.len() - 1]);
                } else {
                    assert(kr[k1] == kept(dl)[k1] && kr[k2] == kept(dl)[k2]);
                }
            }
        }
    }
}

/// An order to load a fresh copy of the artifact: the copy's number and the
/// modification time observed for the artifact.
#[derive(Clone, Copy, Debug, PartialEq, Eq, Structural)]
pub struct LoadOrder {
    pub number: u64,
    pub modified: u64,
}

/// What one poll tick asks of the process: the modules to release, and the
/// copy to load, if a reload is due.
pub struct TickPlan {
    pub release: Vec<u64>,
    pub load: Option<LoadOrder>,
}

/// `tick(observed)` took the runtime from `pre` to `post`, asking to release
/// `release` and to load `load`: the queue was swept, and a copy is ordered
/// exactly when a reload is due and a copy number is left.
pub open spec fn tick_post(
    pre: RuntimeView,
    post: RuntimeView,
    observed: Option<u64>,
    release: Seq<u64>,
    load: Option<LoadOrder>,
) -> bool {
    let swept = RuntimeView { retired: kept(pre.retired), ..pre };
    &&& release == released_modules(pre.retired)
    &&& if reload_due(pre.last_loaded, observed) && pre.next_number < u64::MAX {
        &&& load == Some(LoadOrder { number: pre.next_number, modified: observed.unwrap() })
        &&& post == RuntimeView { next_number: (pre.next_number + 1) as u64, ..swept }
    } else {
        &&& load is None
        &&& post == swept
    }
}

/// The runtime state of one process: the pointer table, the module it
/// dispatches into, and the records of superseded modules.
pub struct Runtime {
    table: PointerTable,
    current: Option<u64>,
    retired: Vec<RefManager>,
    next_number: u64,
    last_loaded: Option<u64>,
}

impl View for Runtime {
    type V = RuntimeView;

    closed spec fn view(&self) -> RuntimeView {
        RuntimeView {
            table: self.table@,
            current: self.current,
            retired: self.retired@.map_values(|r: RefManager| r@),
            next_number: self.next_number,
            last_loaded: self.last_loaded,
        }
    }
}

impl Runtime {
    /// The parts of the runtime are each well formed.
    pub closed spec fn shape(&self) -> bool {
        &&& self.table.wf()
        &&& forall|k: int| 0 <= k < self.retired@.len() ==> (#[trigger] self.retired@[k]).shape()
    }

    pub open spec fn wf(&self) -> bool {
        &&& self.shape()
        &&& crate::table::slots_wf(self@.table)
        &&& runtime_wf(self@)
    }

    /// A runtime with no function registered and no module loaded.
    pub fn new() -> (r: Self)
        ensures
            r.wf(),
            r@ == (RuntimeView {
                table: Seq::empty(),
                current: None,
                retired: Seq::empty(),
                next_number: 0,
                last_loaded: None,
            }),
    {
        let r = Runtime {
            table: PointerTable::new(),
            current: None,
            retired: Vec::new(),
            next_number: 0,
            last_loaded: None,
        };
        assert(r@.retired =~= Seq::<RecordView>::empty());
        r
    }

    /// The number of registered functions.
    pub fn len(&self) -> (r: usize)
        requires
            self.wf(),
        ensures
            r == self@.table.len(),
    {
        self.table.len()
    }

    /// The name of the function registered at `i`.
    pub fn name(&self, i: usize) -> (r: &String)
        requires
            self.wf(),
            i < self@.table.len(),
        ensures
            r@ == self@.table[i as int].name,
    {
        self.table.name(i)
    }

    /// The number of records waiting for their module to be released.
    pub fn retired_len(&self) -> (r: usize)
        ensures
            r == self@.retired.len(),
    {
        self.retired.len()
    }

    /// The number the next module copy will get.
    pub fn next_number(&self) -> (r: u64)
        ensures
            r == self@.next_number,
    {
        self.next_number
    }

    /// Whether module `m` is still loaded.
    pub fn is_loaded(&self, m: u64) -> (r: bool)
        requires
            self.wf(),
        ensures
            r == is_loaded(self@, m),
    {
        if self.current == Some(m) {
            return true;
        }
        let mut k: usize = 0;
        while k < self.retired.len()
            invariant
                k <= self@.retired.len(),
                self.current != Some(m),
                forall|j: int| 0 <= j < k ==> (#[trigger] self@.retired[j]).module != m,
            decreases self@.retired.len() - k,
        {
            if self.retired[k].module() == m {
                assert(self@.retired[k as int].module == m);
                return true;
            }
            k = k + 1;
        }
        false
    }

    /// Whether one more call can take the token behind `name`.
    pub fn has_room(&self, name: &String) -> (r: bool)
        requires
            self.wf(),
        ensures
            r == room_for_call(self@.table, name@),
    {
        self.table.has_room(name)
    }

    /// Registers `name` (see `PointerTable::register`).
    pub fn register(&mut self, name: &String) -> (r: usize)
        requires
            old(self).wf(),
            old(self)@.table.len() < usize::MAX,
        ensures
            final(self).wf(),
            register_post(old(self)@.table, final(self)@.table, name@, r as int),
            final(self)@.current == old(self)@.current,
            final(self)@.retired == old(self)@.retired,
            final(self)@.next_number == old(self)@.next_number,
            final(self)@.last_loaded == old(self)@.last_loaded,
    {
        let r = self.table.register(name);
        assert(self.retired@ == old(self).retired@);
        assert(self@.retired == old(self)@.retired);
        r
    }

    /// A clone of the token behind `name` for one call (see `PointerTable::lookup`).
    pub fn lookup(&mut self, name: &String) -> (r: Result<Token, HotswapError>)
        requires
            old(self).wf(),
            room_for_call(old(self)@.table, name@),
        ensures
            final(self).wf(),
            lookup_post(old(self)@.table, final(self)@.table, name@, r),
            final(self)@.current == old(self)@.current,
            final(self)@.retired == old(self)@.retired,
            final(self)@.next_number == old(self)@.next_number,
            final(self)@.last_loaded == old(self)@.last_loaded,
    {
        let r = self.table.lookup(name);
        assert(self@.retired == old(self)@.retired);
        proof {
            let pre = old(self)@.table;
            let post = self@.table;
            assert forall|i: int| 0 <= i < post.len() implies match #[trigger] post[i].token {
                Some(t) => self@.current == Some(t.module),
                None => true,
            } by {
                assert(post[i].token == pre[i].token);
            }
        }
        r
    }

    /// Ends the call that took `token`; false where no call holds it.
    pub fn release(&mut self, token: Token) -> (r: bool)
        requires
            old(self).wf(),
        ensures
            final(self).wf(),
            r == held(old(self)@, token),
            r ==> release_post(old(self)@, final(self)@, token),
            !r ==> final(self)@ == old(self)@,
    {
        let ghost pre = self@;
        if self.table.give_back(token) {
            assert(self@.retired == pre.retired);
            proof {
                let post = self@.table;
                assert forall|i: int| 0 <= i < post.len() implies match #[trigger] post[i].token {
                    Some(t) => self@.current == Some(t.module),
                    None => true,
                } by {
                    assert(post[i].token == pre.table[i].token);
                }
            }
            return true;
        }
        let mut k: usize = 0;
        while k < self.retired.len()
            invariant
                self.wf(),
                self@ == pre,
                pre == old(self)@,
                k <= pre.retired.len(),
                forall|j: int| 0 <= j < k ==> !holds(#[trigger] pre.retired[j], token),
                !(token.slot < pre.table.len() && pre.table[token.slot as int].token == Some(token)
                    && pre.table[token.slot as int].calls > 0),
            decreases pre.retired.len() - k,
        {
            if self.retired[k].module() == token.module {
                let ghost before = self.retired@;
                assert(pre.retired[k as int] == before[k as int]@);
                assert(before[k as int].shape());
                let mut rec = self.retired.remove(k);
                let ok = rec.release(token);
                let ghost rec_view = rec@;
                self.retired.insert(k, rec);
                assert(self.retired@ =~= before.update(k as int, rec));
                assert(self@.retired =~= pre.retired.update(k as int, rec_view));
                proof {
                    assert forall|j: int| 0 <= j < pre.retired.len() && j != k implies !holds(
                        #[trigger] pre.retired[j],
                        token,
                    ) by {
                        if j > k && holds(pre.retired[j], token) {
                            let w = choose|w: int|
                                0 <= w < pre.retired[j].refs.len() && pre.retired[j].refs[w].token == token
                                    && pre.retired[j].refs[w].calls > 0;
                            assert(record_wf(pre.retired[j]));
                            assert(pre.retired[j].refs[w].token.module == pre.retired[j].module);
                            assert(pre.retired[k as int].module != pre.retired[j].module);
                        }
                    }
                }
                if ok {
                    assert(one_given_back(pre.retired[k as int], self@.retired[k as int], token));
                    assert(self@.retired == pre.retired.update(k as int, self@.retired[k as int]));
                    proof {
                        let post = self@;
                        assert forall|j: int| 0 <= j < post.retired.len() implies record_wf(
                            #[trigger] post.retired[j],
                        ) by {
                            if j == k {
                                assert forall|w: int| 0 <= w < post.retired[j].refs.len() implies (
                                #[trigger] post.retired[j].refs[w]).token.module == post.retired[j].module by {
                                    assert(rec_view.refs[w].token.module == rec_view.module);
                                }
                            }
                        }
                        assert(forall|j: int|
                            0 <= j < post.retired.len() ==> (#[trigger] post.retired[j]).module
                                == pre.retired[j].module);
                    }
                    return true;
                } else {
                    assert(rec_view == pre.retired[k as int]);
                    assert(self@.retired =~= pre.retired);
                    assert(!held(pre, token));
                    return false;
                }
            }
            proof {
                if holds(pre.retired[k as int], token) {
                    let w = choose|w: int|
                        0 <= w < pre.retired[k as int].refs.len() && pre.retired[k as int].refs[w].token == token
                            && pre.retired[k as int].refs[w].calls > 0;
                    assert(record_wf(pre.retired[k as int]));
                    assert(pre.retired[k as int].refs[w].token.module == pre.retired[k as int].module);
                }
            }
            k = k + 1;
        }
        false
    }

    /// Hands out the number for the next module copy; no number is ever
    /// handed out twice.
    pub fn begin_load(&mut self) -> (r: Result<u64, HotswapError>)
        requires
            old(self).wf(),
        ensures
            final(self).wf(),
            old(self)@.next_number < u64::MAX ==> r == Ok::<u64, HotswapError>(old(self)@.next_number)
                && final(self)@ == (RuntimeView { next_number: (old(self)@.next_number + 1) as u64, ..old(self)@ }),
            old(self)@.next_number == u64::MAX ==> r == Err::<u64, HotswapError>(HotswapError::LoadFailure)
                && final(self)@ == old(self)@,
    {
        if self.next_number == u64::MAX {
            return Err(HotswapError::LoadFailure);
        }
        let n = self.next_number;
        self.next_number = n + 1;
        Ok(n)
    }

    /// Whether a reload is due for the observed modification time.
    pub fn should_reload(&self, observed: Option<u64>) -> (r: bool)
        ensures
            r == reload_due(self@.last_loaded, observed),
    {
        match observed {
            None => false,
            Some(o) => match self.last_loaded {
                None => true,
                Some(l) => o > l,
            },
        }
    }

    /// Publishes module `module`, whose exported addresses for the registered
    /// functions, in table order, are `addrs`, and files the tokens it
    /// supersedes in a record of the previous module.
    pub fn publish(&mut self, module: u64, modified: u64, addrs: &Vec<Option<usize>>) -> (r: Result<(), HotswapError>)
        requires
            old(self).wf(),
            module < old(self)@.next_number,
            !is_loaded(old(self)@, module),
        ensures
            final(self).wf(),
            publish_post(old(self)@, final(self)@, module, modified, addrs@, r),
    {
        let ghost pre = self@;
        let n = self.table.len();
        if addrs.len() != n {
            return Err(HotswapError::SymbolResolutionFailure);
        }
        let mut i: usize = 0;
        while i < n
            invariant
                self.wf(),
                self@ == pre,
                pre == old(self)@,
                n == pre.table.len(),
                addrs@.len() == n,
                i <= n,
                forall|j: int| 0 <= j < i ==> (#[trigger] addrs@[j]) is Some,
            decreases n - i,
        {
            if addrs[i].is_none() {
                return Err(HotswapError::SymbolResolutionFailure);
            }
            i = i + 1;
        }
        let old_module = self.current;
        let mut rec = RefManager::new(
            match old_module {
                Some(m) => m,
                None => 0,
            },
        );
        let ghost target = published_table(pre.table, module, addrs@);
        let mut i: usize = 0;
        while i < n
            invariant
                pre == old(self)@,
                target == published_table(pre.table, module, addrs@),
                old(self).wf(),
                resolved(pre, addrs@),
                n == pre.table.len(),
                i <= n,
                self.table.wf(),
                self.table@.len() == n,
                self.current == pre.current,
                old_module == pre.current,
                self.retired@ == old(self).retired@,
                self.next_number == pre.next_number,
                self.last_loaded == pre.last_loaded,
                forall|j: int| 0 <= j < i ==> self.table@[j] == target[j],
                forall|j: int| i <= j < n ==> self.table@[j] == pre.table[j],
                rec.wf(),
                old_module matches Some(m) ==> rec@.module == m,
                rec@.refs == superseded(pre.table.subrange(0, i as int)),
            decreases n - i,
        {
            let a = match addrs[i] {
                Some(a) => a,
                None => 0,
            };
            assert(self.table@[i as int] == pre.table[i as int]);
            assert(addrs@[i as int] is Some);
            assert(target[i as int] == SlotView {
                name: pre.table[i as int].name,
                token: Some(Token { module, slot: i, addr: a }),
                calls: 0,
            });
            let (prev, c) = self.table.replace(i, Token { module, slot: i, addr: a });
            match prev {
                Some(t) => {
                    assert(pre.table[i as int].token == Some(t));
                    rec.add_ref(t, c);
                },
                None => {},
            }
            proof {
                let s = pre.table.subrange(0, i as int + 1);
                assert(s.drop_last() =~= pre.table.subrange(0, i as int));
                assert(s.last() == pre.table[i as int]);
            }
            i = i + 1;
        }
        assert(pre.table.subrange(0, n as int) =~= pre.table);
        assert(self.table@ =~= target);
        let ghost rec_view = rec@;
        match old_module {
            Some(_) => {
                self.retired.push(rec);
                assert(self@.retired =~= pre.retired.push(rec_view));
            },
            None => {
                assert(self@.retired =~= pre.retired);
                proof {
                    assert forall|j: int| 0 <= j < n implies pre.table[j].token is None by {
                        if pre.table[j].token is Some {
                            assert(pre.current is Some);
                        }
                    }
                }
                assert(superseded(pre.table.subrange(0, n as int)) == superseded(pre.table));
            },
        }
        self.current = Some(module);
        self.last_loaded = Some(modified);
        assert(self@ == published(pre, module, modified, addrs@));
        Ok(())
    }

    /// Retires every record of the queue that is eligible and hands back the
    /// numbers of their modules, which may now be released; the other
    /// records stay queued, in order.
    pub fn sweep(&mut self) -> (r: Vec<u64>)
        requires
            old(self).wf(),
        ensures
            final(self).wf(),
            sweep_post(old(self)@, final(self)@, r@),
    {
        let ghost pre = self@;
        let mut rest: Vec<RefManager> = Vec::new();
        std::mem::swap(&mut rest, &mut self.retired);
        let ghost orig = rest@;
        assert(pre.retired == orig.map_values(|r: RefManager| r@));
        let mut released: Vec<u64> = Vec::new();
        assert(pre.retired.subrange(0, 0) =~= Seq::<RecordView>::empty());
        assert(self@.retired =~= Seq::<RecordView>::empty());
        while rest.len() > 0
            invariant
                pre == old(self)@,
                old(self).wf(),
                orig == old(self).retired@,
                pre.retired == orig.map_values(|r: RefManager| r@),
                rest@.len() <= orig.len(),
                rest@ == orig.subrange(orig.len() - rest@.len(), orig.len() as int),
                self.table == old(self).table,
                self.current == pre.current,
                self.next_number == pre.next_number,
                self.last_loaded == pre.last_loaded,
                self@.retired == kept(pre.retired.subrange(0, orig.len() - rest@.len())),
                released@ == released_modules(pre.retired.subrange(0, orig.len() - rest@.len())),
                forall|k: int| 0 <= k < self.retired@.len() ==> (#[trigger] self.retired@[k]).shape(),
            decreases rest@.len(),
        {
            let ghost d = orig.len() - rest@.len();
            let ghost kept_before = self@.retired;
            let rec = rest.remove(0);
            assert(rec == orig[d]);
            assert(rec@ == pre.retired[d]);
            assert(old(self).retired@[d].shape());
            assert(record_wf(pre.retired[d]));
            proof {
                let s = pre.retired.subrange(0, d + 1);
                assert(s.drop_last() =~= pre.retired.subrange(0, d));
                assert(s.last() == pre.retired[d]);
            }
            assert(rest@ =~= orig.subrange(d + 1, orig.len() as int));
            if rec.is_eligible() {
                match rec.retire() {
                    Ok(m) => {
                        released.push(m);
                    },
                    Err(_) => {},
                }
                assert(self@.retired == kept_before);
            } else {
                let ghost rv = rec@;
                self.retired.push(rec);
                assert(self@.retired =~= kept_before.push(rv));
            }
        }
        proof {
            assert(pre.retired.subrange(0, orig.len() as int) =~= pre.retired);
            lemma_kept_from(pre.retired);
            lemma_kept_distinct(pre.retired);
            let kr = kept(pre.retired);
            assert forall|k: int| 0 <= k < kr.len() implies {
                &&& record_wf(#[trigger] kr[k])
                &&& pre.current != Some(kr[k].module)
                &&& kr[k].module < pre.next_number
            } by {
                let j = choose|j: int| 0 <= j < pre.retired.len() && kr[k] == pre.retired[j] && !eligible(pre.retired[j]);
                assert(record_wf(pre.retired[j]));
            }
        }
        released
    }

    /// One poll tick: retires what can be retired, then orders a fresh copy
    /// of the artifact if its observed modification time calls for a reload.
    pub fn tick(&mut self, observed: Option<u64>) -> (r: TickPlan)
        requires
            old(self).wf(),
        ensures
            final(self).wf(),
            tick_post(old(self)@, final(self)@, observed, r.release@, r.load),
    {
        let release = self.sweep();
        let load = if self.should_reload(observed) {
            match (self.begin_load(), observed) {
                (Ok(number), Some(modified)) => Some(LoadOrder { number, modified }),
                _ => None,
            }
        } else {
            None
        };
        TickPlan { release, load }
    }
}

} // verus!
