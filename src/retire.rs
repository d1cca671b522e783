use vstd::prelude::*;

use crate::token::{HotswapError, Token};

verus! {

/// A superseded token filed in a record, with the number of calls that still
/// hold a clone of it.
pub struct Filed {
    pub token: Token,
    pub calls: nat,
}

/// A retirement record as a mathematical value.
pub struct RecordView {
    pub module: u64,
    pub refs: Seq<Filed>,
}

/// No call holds any token filed in the record: only the record owns them.
pub open spec fn eligible(r: RecordView) -> bool {
    forall|j: int| 0 <= j < r.refs.len() ==> (#[trigger] r.refs[j]).calls == 0
}

/// `refs` without the run of unheld tokens at its end.
pub open spec fn trim_unheld(refs: Seq<Filed>) -> Seq<Filed>
    decreases refs.len(),
{
    if refs.len() == 0 {
        refs
    } else if refs.last().calls == 0 {
        trim_unheld(refs.drop_last())
    } else {
        refs
    }
}

/// The filed tokens all point into the record's own module.
pub open spec fn record_wf(r: RecordView) -> bool {
    forall|j: int| 0 <= j < r.refs.len() ==> (#[trigger] r.refs[j]).token.module == r.module
}

/// Some filed token equal to `token` is held by a call.
pub open spec fn holds(r: RecordView, token: Token) -> bool {
    exists|j: int| 0 <= j < r.refs.len() && r.refs[j].token == token && r.refs[j].calls > 0
}

/// `post` is `pre` with one call on a held copy of `token` ended.
pub open spec fn one_given_back(pre: RecordView, post: RecordView, token: Token) -> bool {
    exists|j: int|
        0 <= j < pre.refs.len() && pre.refs[j].token == token && pre.refs[j].calls > 0 && post == RecordView {
            module: pre.module,
            refs: pre.refs.update(j, Filed { token, calls: (pre.refs[j].calls - 1) as nat }),
        }
}

/// Keeps a superseded module loaded for as long as a call may still run in it.
pub struct RefManager {
    module: u64,
    tokens: Vec<Token>,
    calls: Vec<usize>,
}

impl View for RefManager {
    type V = RecordView;

    closed spec fn view(&self) -> RecordView {
        RecordView {
            module: self.module,
            refs: Seq::new(
                self.tokens@.len(),
                |j: int| Filed { token: self.tokens@[j], calls: self.calls@[j] as nat },
            ),
        }
    }
}

impl RefManager {
    /// The columns of the record line up.
    pub closed spec fn shape(&self) -> bool {
        self.calls@.len() == self.tokens@.len()
    }

    pub open spec fn wf(&self) -> bool {
        &&& self.shape()
        &&& record_wf(self@)
    }

    /// A record for `module`, with no token filed yet.
    pub fn new(module: u64) -> (r: Self)
        ensures
            r.wf(),
            r@ == (RecordView { module, refs: Seq::empty() }),
    {
        let r = RefManager { module, tokens: Vec::new(), calls: Vec::new() };
        assert(r@.refs =~= Seq::<Filed>::empty());
        r
    }

    /// The number of the module the record keeps.
    pub fn module(&self) -> (r: u64)
        ensures
            r == self@.module,
    {
        self.module
    }

    /// Files a superseded token of this record's module, held by `calls` calls.
    pub fn add_ref(&mut self, token: Token, calls: usize)
        requires
            old(self).wf(),
            token.module == old(self)@.module,
        ensures
            final(self).wf(),
            final(self)@ == (RecordView {
                module: old(self)@.module,
                refs: old(self)@.refs.push(Filed { token, calls: calls as nat }),
            }),
    {
        let ghost pre = self@;
        self.tokens.push(token);
        self.calls.push(calls);
        assert(self@.refs =~= pre.refs.push(Filed { token, calls: calls as nat }));
    }

    /// Whether no call holds any filed token, so that the module may go.
    pub fn is_eligible(&self) -> (r: bool)
        requires
            self.wf(),
        ensures
            r == eligible(self@),
    {
        let mut j: usize = 0;
        while j < self.calls.len()
            invariant
                self.wf(),
                j <= self@.refs.len(),
                forall|k: int| 0 <= k < j ==> (#[trigger] self@.refs[k]).calls == 0,
            decreases self@.refs.len() - j,
        {
            if self.calls[j] > 0 {
                assert(self@.refs[j as int].calls > 0);
                return false;
            }
            j = j + 1;
        }
        true
    }

    /// Drops the unheld tokens at the end of the record and tells whether
    /// the record was eligible; it then holds no token at all.
    pub fn should_drop(&mut self) -> (r: bool)
        requires
            old(self).wf(),
        ensures
            final(self).wf(),
            r == eligible(old(self)@),
            final(self)@ == (RecordView { module: old(self)@.module, refs: trim_unheld(old(self)@.refs) }),
    {
        let ghost pre = self@;
        while self.tokens.len() > 0
            invariant
                self.wf(),
                pre == old(self)@,
                self@.module == pre.module,
                trim_unheld(self@.refs) == trim_unheld(pre.refs),
                eligible(self@) == eligible(pre),
            decreases self@.refs.len(),
        {
            let n = self.tokens.len();
            if self.calls[n - 1] > 0 {
                assert(self@.refs.last().calls > 0);
                assert(trim_unheld(self@.refs) == self@.refs);
                assert(!eligible(self@));
                return false;
            }
            let ghost before = self@;
            self.tokens.pop();
            self.calls.pop();
            assert(self@.refs =~= before.refs.drop_last());
            assert(before.refs.last().calls == 0);
            assert(trim_unheld(before.refs) == trim_unheld(self@.refs));
            assert(eligible(self@) == eligible(before)) by {
                if eligible(self@) {
                    assert forall|k: int| 0 <= k < before.refs.len() implies (#[trigger] before.refs[k]).calls == 0 by {
                        if k < before.refs.len() - 1 {
                            assert(before.refs[k] == self@.refs[k]);
                        }
                    }
                }
                if eligible(before) {
                    assert forall|k: int| 0 <= k < self@.refs.len() implies (#[trigger] self@.refs[k]).calls == 0 by {
                        assert(before.refs[k] == self@.refs[k]);
                    }
                }
            }
        }
        assert(self@.refs =~= Seq::<Filed>::empty());
        true
    }

    /// Ends one call on a filed token equal to `token`, if a call holds one.
    pub fn release(&mut self, token: Token) -> (r: bool)
        requires
            old(self).wf(),
        ensures
            final(self).wf(),
            r == holds(old(self)@, token),
            r ==> one_given_back(old(self)@, final(self)@, token),
            !r ==> final(self)@ == old(self)@,
    {
        let ghost pre = self@;
        let mut j: usize = 0;
        while j < self.tokens.len()
            invariant
                self.wf(),
                self@ == pre,
                pre == old(self)@,
                j <= pre.refs.len(),
                forall|k: int| 0 <= k < j ==> !(pre.refs[k].token == token && #[trigger] pre.refs[k].calls > 0),
            decreases pre.refs.len() - j,
        {
            if self.tokens[j] == token && self.calls[j] > 0 {
                let c = self.calls[j];
                self.calls.set(j, c - 1);
                let ghost post = RecordView {
                    module: pre.module,
                    refs: pre.refs.update(j as int, Filed { token, calls: (c - 1) as nat }),
                };
                assert(self@.refs =~= post.refs);
                assert(self@ == post);
                assert(pre.refs[j as int].token == token && pre.refs[j as int].calls > 0);
                assert(holds(pre, token));
                assert(one_given_back(pre, post, token));
                return true;
            }
            j = j + 1;
        }
        false
    }

    /// Gives up the record once it is eligible, handing back the number of the
    /// module that may now be released. An ineligible record is refused.
    pub fn retire(self) -> (r: Result<u64, HotswapError>)
        requires
            self.wf(),
        ensures
            eligible(self@) ==> r == Ok::<u64, HotswapError>(self@.module),
            !eligible(self@) ==> r == Err::<u64, HotswapError>(HotswapError::RetirementViolation),
    {
        if self.is_eligible() {
            Ok(self.module)
        } else {
            Err(HotswapError::RetirementViolation)
        }
    }
}

} // verus!
