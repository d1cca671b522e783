use vstd::prelude::*;

use crate::token::{HotswapError, Token};

verus! {

/// One entry of the pointer table as a mathematical value: the function's
/// name, the token calls currently dispatch through, and how many calls
/// hold a clone of that token right now.
pub struct SlotView {
    pub name: Seq<char>,
    pub token: Option<Token>,
    pub calls: nat,
}

/// No two entries share a name.
pub open spec fn names_distinct(s: Seq<SlotView>) -> bool {
    forall|i: int, j: int| 0 <= i < j < s.len() ==> s[i].name != s[j].name
}

/// The entries are keyed by unique names, each published token sits in the
/// entry it was published into, and an unset entry has no call in flight.
pub open spec fn slots_wf(s: Seq<SlotView>) -> bool {
    &&& names_distinct(s)
    &&& forall|i: int|
        0 <= i < s.len() ==> match #[trigger] s[i].token {
            Some(t) => t.slot == i,
            None => s[i].calls == 0,
        }
}

pub open spec fn has_name(s: Seq<SlotView>, name: Seq<char>) -> bool {
    exists|i: int| 0 <= i < s.len() && s[i].name == name
}

/// The index of the entry called `name`; meaningful where `has_name` holds.
pub open spec fn index_of(s: Seq<SlotView>, name: Seq<char>) -> int {
    choose|i: int| 0 <= i < s.len() && s[i].name == name
}

/// The entry `e` with one more call holding its token.
pub open spec fn taken(e: SlotView) -> SlotView {
    SlotView { name: e.name, token: e.token, calls: e.calls + 1 }
}

/// The entry `e` with one call fewer holding its token.
pub open spec fn given_back(e: SlotView) -> SlotView {
    SlotView { name: e.name, token: e.token, calls: (e.calls - 1) as nat }
}

/// `register(name)` took the table from `pre` to `post` and returned `r`.
pub open spec fn register_post(pre: Seq<SlotView>, post: Seq<SlotView>, name: Seq<char>, r: int) -> bool {
    if has_name(pre, name) {
        &&& post == pre
        &&& 0 <= r < pre.len()
        &&& pre[r].name == name
    } else {
        &&& post == pre.push(SlotView { name, token: None, calls: 0 })
        &&& r == pre.len()
    }
}

/// `lookup(name)` took the table from `pre` to `post` and returned `r`.
pub open spec fn lookup_post(
    pre: Seq<SlotView>,
    post: Seq<SlotView>,
    name: Seq<char>,
    r: Result<Token, HotswapError>,
) -> bool {
    if !has_name(pre, name) {
        r == Err::<Token, HotswapError>(HotswapError::UnknownFunction) && post == pre
    } else {
        let i = index_of(pre, name);
        match pre[i].token {
            None => r == Err::<Token, HotswapError>(HotswapError::NotInitialized) && post == pre,
            Some(t) => r == Ok::<Token, HotswapError>(t) && post == pre.update(i, taken(pre[i])),
        }
    }
}

/// No call could take one more clone of the token behind `name` without its
/// count running past the machine word.
pub open spec fn room_for_call(s: Seq<SlotView>, name: Seq<char>) -> bool {
    forall|i: int| 0 <= i < s.len() && s[i].name == name ==> s[i].calls < usize::MAX
}

/// Process-wide map from function name to the token calls currently go through.
pub struct PointerTable {
    names: Vec<String>,
    tokens: Vec<Option<Token>>,
    calls: Vec<usize>,
}

impl View for PointerTable {
    type V = Seq<SlotView>;

    closed spec fn view(&self) -> Seq<SlotView> {
        Seq::new(
            self.names@.len(),
            |i: int| SlotView { name: self.names@[i]@, token: self.tokens@[i], calls: self.calls@[i] as nat },
        )
    }
}

impl PointerTable {
    /// The columns of the table line up.
    pub closed spec fn shape(&self) -> bool {
        &&& self.tokens@.len() == self.names@.len()
        &&& self.calls@.len() == self.names@.len()
    }

    pub open spec fn wf(&self) -> bool {
        &&& self.shape()
        &&& slots_wf(self@)
    }

    /// A table with no entries.
    pub fn new() -> (r: Self)
        ensures
            r.wf(),
            r@ == Seq::<SlotView>::empty(),
    {
        let r = PointerTable { names: Vec::new(), tokens: Vec::new(), calls: Vec::new() };
        assert(r@ =~= Seq::<SlotView>::empty());
        r
    }

    /// The number of entries.
    pub fn len(&self) -> (r: usize)
        requires
            self.wf(),
        ensures
            r == self@.len(),
    {
        self.names.len()
    }

    /// The name of entry `i`.
    pub fn name(&self, i: usize) -> (r: &String)
        requires
            self.wf(),
            i < self@.len(),
        ensures
            r@ == self@[i as int].name,
    {
        &self.names[i]
    }

    /// The index of the entry called `name`, if there is one.
    pub fn position(&self, name: &String) -> (r: Option<usize>)
        requires
            self.wf(),
        ensures
            match r {
                Some(i) => i < self@.len() && self@[i as int].name == name@,
                None => !has_name(self@, name@),
            },
    {
        let mut i: usize = 0;
        while i < self.names.len()
            invariant
                self.wf(),
                i <= self@.len(),
                forall|j: int| 0 <= j < i ==> self@[j].name != name@,
            decreases self@.len() - i,
        {
            if self.names[i] == *name {
                return Some(i);
            }
            i = i + 1;
        }
        None
    }

    /// Whether one more call can take the token behind `name`.
    pub fn has_room(&self, name: &String) -> (r: bool)
        requires
            self.wf(),
        ensures
            r == room_for_call(self@, name@),
    {
        match self.position(name) {
            None => true,
            Some(i) => {
                proof {
                    assert forall|j: int| 0 <= j < self@.len() && self@[j].name == name@ implies j == i by {
                        if j != i as int {
                            assert(names_distinct(self@));
                        }
                    }
                }
                self.calls[i] < usize::MAX
            },
        }
    }

    /// Creates an unset entry for `name` unless one exists; returns its index.
    /// An existing entry, and the token published into it, are left alone.
    pub fn register(&mut self, name: &String) -> (r: usize)
        requires
            old(self).wf(),
            old(self)@.len() < usize::MAX,
        ensures
            final(self).wf(),
            register_post(old(self)@, final(self)@, name@, r as int),
    {
        match self.position(name) {
            Some(i) => i,
            None => {
                let ghost pre = self@;
                let i = self.names.len();
                self.names.push(name.clone());
                self.tokens.push(None);
                self.calls.push(0);
                assert(self@ =~= pre.push(SlotView { name: name@, token: None, calls: 0 }));
                i
            },
        }
    }

    /// A clone of the token behind `name`; the clone counts as one more call
    /// in flight on that token until it is given back.
    pub fn lookup(&mut self, name: &String) -> (r: Result<Token, HotswapError>)
        requires
            old(self).wf(),
            room_for_call(old(self)@, name@),
        ensures
            final(self).wf(),
            lookup_post(old(self)@, final(self)@, name@, r),
    {
        let ghost pre = self@;
        match self.position(name) {
            None => Err(HotswapError::UnknownFunction),
            Some(i) => {
                assert(index_of(pre, name@) == i as int) by {
                    let k = index_of(pre, name@);
                    assert(0 <= k < pre.len() && pre[k].name == name@);
                    assert(names_distinct(pre));
                }
                match self.tokens[i] {
                    None => Err(HotswapError::NotInitialized),
                    Some(t) => {
                        let c = self.calls[i];
                        self.calls.set(i, c + 1);
                        assert(self@ =~= pre.update(i as int, taken(pre[i as int])));
                        assert(slots_wf(self@)) by {
                            assert forall|j: int| 0 <= j < self@.len() implies match #[trigger] self@[j].token {
                                Some(t) => t.slot == j,
                                None => self@[j].calls == 0,
                            } by {
                                assert(pre[j].token == self@[j].token);
                            }
                        }
                        Ok(t)
                    },
                }
            },
        }
    }

    /// Publishes `token` into entry `i` and hands back the token it held
    /// before, with the number of calls still holding that one.
    pub fn replace(&mut self, i: usize, token: Token) -> (r: (Option<Token>, usize))
        requires
            old(self).wf(),
            i < old(self)@.len(),
            token.slot == i,
        ensures
            final(self).wf(),
            final(self)@ == old(self)@.update(
                i as int,
                SlotView { name: old(self)@[i as int].name, token: Some(token), calls: 0 },
            ),
            r.0 == old(self)@[i as int].token,
            r.1 == old(self)@[i as int].calls,
    {
        let ghost pre = self@;
        let prev = self.tokens[i];
        let c = self.calls[i];
        self.tokens.set(i, Some(token));
        self.calls.set(i, 0);
        let ghost post = pre.update(i as int, SlotView { name: pre[i as int].name, token: Some(token), calls: 0 });
        assert(self@ =~= post);
        assert(slots_wf(self@)) by {
            assert forall|j: int| 0 <= j < self@.len() implies match #[trigger] self@[j].token {
                Some(t) => t.slot == j,
                None => self@[j].calls == 0,
            } by {
                if j != i {
                    assert(pre[j] == self@[j]);
                }
            }
        }
        (prev, c)
    }

    /// Ends one call holding `token`, if `token` is what its entry holds now
    /// and some call holds it.
    pub fn give_back(&mut self, token: Token) -> (r: bool)
        requires
            old(self).wf(),
        ensures
            final(self).wf(),
            r == (token.slot < old(self)@.len() && old(self)@[token.slot as int].token == Some(token)
                && old(self)@[token.slot as int].calls > 0),
            r ==> final(self)@ == old(self)@.update(
                token.slot as int,
                given_back(old(self)@[token.slot as int]),
            ),
            !r ==> final(self)@ == old(self)@,
    {
        let ghost pre = self@;
        let i = token.slot;
        if i < self.tokens.len() && self.tokens[i] == Some(token) && self.calls[i] > 0 {
            let c = self.calls[i];
            self.calls.set(i, c - 1);
            assert(self@ =~= pre.update(i as int, given_back(pre[i as int])));
            assert(slots_wf(self@)) by {
                assert forall|j: int| 0 <= j < self@.len() implies match #[trigger] self@[j].token {
                    Some(t) => t.slot == j,
                    None => self@[j].calls == 0,
                } by {
                    assert(pre[j].token == self@[j].token);
                }
            }
            true
        } else {
            false
        }
    }
}

} // verus!
