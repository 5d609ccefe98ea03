//! The shared registry of live connections: a table from peer address to
//! that peer's outbound channel handle. Every mutation and every
//! iteration-for-broadcast happens through one exclusive borrow, so
//! `register`, `unregister` and `broadcast` are mutually atomic.

use vstd::prelude::*;

verus! {

/// Model of one peer's outbound channel: the write half of its transport.
/// `sent` is the log of frames delivered through it; `open` is whether the
/// peer can still be written to. A send through a closed handle fails, and
/// that failure is isolated: it never blocks delivery to other handles.
pub struct Handle {
    pub sent: Vec<String>,
    pub open: bool,
}

impl View for Handle {
    type V = (Seq<Seq<char>>, bool);

    open spec fn view(&self) -> (Seq<Seq<char>>, bool) {
        (self.sent.deep_view(), self.open)
    }
}

impl Handle {
    /// A fresh, writable handle with an empty delivery log.
    pub fn new() -> (h: Handle)
        ensures
            h@ == (Seq::<Seq<char>>::empty(), true),
    {
        let h = Handle { sent: Vec::new(), open: true };
        proof {
            assert(h.sent.deep_view() =~= Seq::<Seq<char>>::empty());
        }
        h
    }
}

struct Entry {
    addr: String,
    handle: Handle,
}

/// The table of currently connected peers. At most one entry per address.
pub struct Registry {
    entries: Vec<Entry>,
}

/// Index of the first occurrence of `a` in `s`, or past the end if absent.
spec fn first_idx(s: Seq<Seq<char>>, a: Seq<char>) -> int
    decreases s.len(),
{
    if s.len() == 0 {
        0
    } else if s[0] == a {
        0
    } else {
        1 + first_idx(s.drop_first(), a)
    }
}

impl Registry {
    /// The addresses of the registered peers, in table order.
    pub closed spec fn addrs(self) -> Seq<Seq<char>> {
        self.entries@.map_values(|e: Entry| e.addr@)
    }

    /// Number of registered peers.
    pub open spec fn count(self) -> nat {
        self.addrs().len()
    }

    /// Whether a peer with address `a` is registered.
    pub open spec fn contains_addr(self, a: Seq<char>) -> bool {
        self.addrs().contains(a)
    }

    closed spec fn sent_at(self, i: int) -> Seq<Seq<char>> {
        self.entries@[i].handle.sent.deep_view()
    }

    closed spec fn open_at(self, i: int) -> bool {
        self.entries@[i].handle.open
    }

    /// The delivery log of the peer registered at address `a`.
    pub closed spec fn log_of(self, a: Seq<char>) -> Seq<Seq<char>> {
        self.sent_at(first_idx(self.addrs(), a))
    }

    /// Whether the handle of the peer at address `a` is still writable.
    pub closed spec fn is_open(self, a: Seq<char>) -> bool {
        self.open_at(first_idx(self.addrs(), a))
    }

    /// Well-formed: at most one entry per address.
    pub closed spec fn wf(self) -> bool {
        forall|i: int, j: int|
            0 <= i < j < self.addrs().len() ==> self.addrs()[i] != self.addrs()[j]
    }

    /// An empty registry.
    pub fn new() -> (r: Registry)
        ensures
            r.wf(),
            r.count() == 0,
            forall|a: Seq<char>| !r.contains_addr(a),
    {
        let r = Registry { entries: Vec::new() };
        proof {
            assert(r.addrs() =~= Seq::<Seq<char>>::empty());
        }
        r
    }

    /// How many peers are registered.
    pub fn len(&self) -> (n: usize)
        ensures
            n as nat == self.count(),
    {
        self.entries.len()
    }

    /// Whether `addr` is registered, by linear scan.
    pub fn contains(&self, addr: &String) -> (r: bool)
        ensures
            r == self.contains_addr(addr@),
    {
        let n = self.entries.len();
        let mut k: usize = 0;
        while k < n
            invariant
                0 <= k <= n,
                n == self.addrs().len(),
                forall|i: int| 0 <= i < k ==> self.addrs()[i] != addr@,
            decreases n - k,
        {
            if self.entries[k].addr == *addr {
                proof {
                    assert(self.addrs()[k as int] == addr@);
                }
                return true;
            }
            proof {
                assert(self.addrs()[k as int] == self.entries@[k as int].addr@);
            }
            k = k + 1;
        }
        proof {
            if self.contains_addr(addr@) {
                let i = choose|i: int|
                    0 <= i < self.addrs().len() && self.addrs()[i] == addr@;
                assert(false);
            }
        }
        false
    }

    /// A reference to the delivery log of `addr`, if registered.
    pub fn get_log(&self, addr: &String) -> (r: Option<&Vec<String>>)
        requires
            self.wf(),
        ensures
            match r {
                Some(v) => self.contains_addr(addr@) && v.deep_view() == self.log_of(addr@),
                None => !self.contains_addr(addr@),
            },
    {
        let n = self.entries.len();
        let mut k: usize = 0;
        while k < n
            invariant
                0 <= k <= n,
                n == self.addrs().len(),
                forall|i: int| 0 <= i < k ==> self.addrs()[i] != addr@,
            decreases n - k,
        {
            if self.entries[k].addr == *addr {
                proof {
                    assert(self.addrs()[k as int] == addr@);
                    lemma_first_idx_hits(self.addrs(), addr@, k as int);
                }
                return Some(&self.entries[k].handle.sent);
            }
            proof {
                assert(self.addrs()[k as int] == self.entries@[k as int].addr@);
            }
            k = k + 1;
        }
        proof {
            if self.contains_addr(addr@) {
                let i = choose|i: int|
                    0 <= i < self.addrs().len() && self.addrs()[i] == addr@;
                assert(false);
            }
        }
        None
    }

    /// Inserts a peer. The address must not already be present; the caller
    /// observes this with `contains` first where it cannot know.
    pub fn register(&mut self, addr: String, handle: Handle)
        requires
            old(self).wf(),
            !old(self).contains_addr(addr@),
        ensures
            final(self).wf(),
            final(self).count() == old(self).count() + 1,
            final(self).contains_addr(addr@),
            forall|b: Seq<char>|
                #[trigger] final(self).contains_addr(b) <==> (b == addr@ || old(
                    self,
                ).contains_addr(b)),
            final(self).log_of(addr@) == handle@.0,
            final(self).is_open(addr@) == handle@.1,
            forall|b: Seq<char>|
                old(self).contains_addr(b) ==> #[trigger] final(self).log_of(b) == old(
                    self,
                ).log_of(b) && final(self).is_open(b) == old(self).is_open(b),
    {
        let ghost olds = self.addrs();
        self.entries.push(Entry { addr, handle });
        proof {
            assert(self.addrs() =~= olds.push(self.entries@.last().addr@));
            let news = self.addrs();
            let a = news.last();
            assert forall|b: Seq<char>| #[trigger] news.contains(b) implies (b == a
                || olds.contains(b)) by {
                let i = choose|i: int| 0 <= i < news.len() && news[i] == b;
                if i < olds.len() {
                    assert(olds[i] == b);
                }
            }
            assert forall|b: Seq<char>| olds.contains(b) implies #[trigger] news.contains(b) by {
                let i = choose|i: int| 0 <= i < olds.len() && olds[i] == b;
                assert(news[i] == b);
            }
            assert(news.contains(a)) by {
                assert(news[news.len() - 1] == a);
            }
            assert(final(self).wf()) by {
                assert forall|i: int, j: int| 0 <= i < j < news.len() implies news[i] != news[j] by {
                    if j == news.len() - 1 {
                        assert(olds[i] == news[i]);
                        assert(olds.contains(news[i]));
                    }
                }
            }
            lemma_first_idx_hits(news, a, news.len() - 1);
            assert(final(self).log_of(a) == handle@.0);
            assert forall|b: Seq<char>| olds.contains(b) implies #[trigger] final(self).log_of(b)
                == old(self).log_of(b) && final(self).is_open(b) == old(self).is_open(b) by {
                let i = choose|i: int| 0 <= i < olds.len() && olds[i] == b;
                lemma_first_idx_hits(olds, b, i);
                lemma_first_idx_hits(news, b, first_idx(olds, b));
            }
        }
    }

    /// Removes the entry for `addr` and hands its handle back; a no-op
    /// returning `None` if the address is absent.
    pub fn unregister(&mut self, addr: &String) -> (removed: Option<Handle>)
        requires
            old(self).wf(),
        ensures
            final(self).wf(),
            !final(self).contains_addr(addr@),
            forall|b: Seq<char>|
                #[trigger] final(self).contains_addr(b) <==> (b != addr@ && old(
                    self,
                ).contains_addr(b)),
            forall|b: Seq<char>|
                b != addr@ && old(self).contains_addr(b) ==> #[trigger] final(self).log_of(b)
                    == old(self).log_of(b) && final(self).is_open(b) == old(self).is_open(b),
            match removed {
                Some(h) => old(self).contains_addr(addr@) && h@.0 == old(self).log_of(addr@)
                    && h@.1 == old(self).is_open(addr@) && final(self).count() == old(
                    self,
                ).count() - 1,
                None => !old(self).contains_addr(addr@) && final(self).count() == old(
                    self,
                ).count(),
            },
    {
        let ghost olds = self.addrs();
        let n = self.entries.len();
        let mut k: usize = 0;
        while k < n
            invariant
                0 <= k <= n,
                n == self.addrs().len(),
                self == old(self),
                olds == self.addrs(),
                old(self).wf(),
                forall|i: int| 0 <= i < k ==> self.addrs()[i] != addr@,
            decreases n - k,
        {
            if self.entries[k].addr == *addr {
                proof {
                    assert(self.addrs()[k as int] == addr@);
                    lemma_first_idx_hits(olds, addr@, k as int);
                }
                let ghost pre_entries = self.entries@;
                let e = self.entries.remove(k);
                proof {
                    let news = self.addrs();
                    assert forall|i: int| 0 <= i < news.len() implies news[i] == olds.remove(
                        k as int,
                    )[i] by {
                        if i < k as int {
                            assert(self.entries@[i] == pre_entries[i]);
                        } else {
                            assert(self.entries@[i] == pre_entries[i + 1]);
                        }
                    }
                    assert(news =~= olds.remove(k as int));
                    assert forall|i: int, j: int| 0 <= i < j < news.len() implies news[i]
                        != news[j] by {
                        let oi = if i < k as int { i } else { i + 1 };
                        let oj = if j < k as int { j } else { j + 1 };
                        assert(news[i] == olds[oi]);
                        assert(news[j] == olds[oj]);
                    }
                    assert forall|b: Seq<char>| #[trigger] news.contains(b) implies (b != addr@
                        && olds.contains(b)) by {
                        let i = choose|i: int| 0 <= i < news.len() && news[i] == b;
                        let oi = if i < k as int { i } else { i + 1 };
                        assert(olds[oi] == b);
                        if b == addr@ {
                            assert(olds[k as int] == addr@);
                        }
                    }
                    assert forall|b: Seq<char>| b != addr@ && olds.contains(b) implies #[trigger]
                        news.contains(b) by {
                        let i = choose|i: int| 0 <= i < olds.len() && olds[i] == b;
                        if i < k as int {
                            assert(news[i] == b);
                        } else {
                            assert(i != k as int);
                            assert(news[i - 1] == b);
                        }
                    }
                    assert forall|b: Seq<char>| b != addr@ && olds.contains(b) implies #[trigger]
                        final(self).log_of(b) == old(self).log_of(b) && final(self).is_open(b)
                        == old(self).is_open(b) by {
                        let i = choose|i: int| 0 <= i < olds.len() && olds[i] == b;
                        lemma_first_idx_hits(olds, b, i);
                        if i < k as int {
                            assert(news[i] == b);
                            lemma_first_idx_hits(news, b, i);
                            assert(self.entries@[i] == pre_entries[i]);
                        } else {
                            assert(i != k as int);
                            assert(news[i - 1] == b);
                            assert forall|j: int| 0 <= j < i - 1 implies news[j] != b by {
                                let oj = if j < k as int { j } else { j + 1 };
                                assert(news[j] == olds[oj]);
                            }
                            lemma_first_idx_hits(news, b, i - 1);
                            assert(self.entries@[i - 1] == pre_entries[i]);
                        }
                    }
                }
                return Some(e.handle);
            }
            proof {
                assert(self.addrs()[k as int] == self.entries@[k as int].addr@);
            }
            k = k + 1;
        }
        proof {
            if self.contains_addr(addr@) {
                let i = choose|i: int|
                    0 <= i < self.addrs().len() && self.addrs()[i] == addr@;
                assert(false);
            }
        }
        None
    }

    /// Marks the handle of `addr` as no longer writable, as when the peer's
    /// transport has gone away but the entry has not yet been removed.
    pub fn mark_closed(&mut self, addr: &String)
        requires
            old(self).wf(),
        ensures
            final(self).wf(),
            final(self).addrs() == old(self).addrs(),
            old(self).contains_addr(addr@) ==> !final(self).is_open(addr@),
            forall|b: Seq<char>|
                old(self).contains_addr(b) ==> #[trigger] final(self).log_of(b) == old(
                    self,
                ).log_of(b),
            forall|b: Seq<char>|
                b != addr@ && old(self).contains_addr(b) ==> #[trigger] final(self).is_open(b)
                    == old(self).is_open(b),
    {
        let ghost olds = self.addrs();
        let n = self.entries.len();
        let mut k: usize = 0;
        while k < n
            invariant
                0 <= k <= n,
                n == self.addrs().len(),
                old(self).wf(),
                self.addrs() == olds,
                olds == old(self).addrs(),
                forall|i: int| 0 <= i < k ==> self.addrs()[i] != addr@,
                forall|i: int|
                    0 <= i < n ==> self.sent_at(i) == old(self).sent_at(i) && self.open_at(i)
                        == old(self).open_at(i),
            decreases n - k,
        {
            if self.entries[k].addr == *addr {
                proof {
                    assert(self.addrs()[k as int] == addr@);
                    lemma_first_idx_hits(olds, addr@, k as int);
                }
                let ghost before = self.entries@;
                let ghost pre = *self;
                self.entries[k].handle.open = false;
                proof {
                    assert forall|i: int| 0 <= i < n && i != k as int implies self.entries@[i]
                        == before[i] by {}
                    assert(self.entries@[k as int].addr == before[k as int].addr);
                    assert(self.entries@[k as int].handle.sent == before[k as int].handle.sent);
                    assert(self.addrs() =~= olds);
                    assert forall|i: int| 0 <= i < n implies #[trigger] self.sent_at(i) == old(
                        self,
                    ).sent_at(i) && (olds[i] != addr@ ==> self.open_at(i) == old(self).open_at(
                        i,
                    )) by {
                        if i != k as int {
                            assert(self.entries@[i] == before[i]);
                            assert(pre.sent_at(i) == self.sent_at(i));
                            assert(pre.open_at(i) == self.open_at(i));
                        } else {
                            assert(olds[i] == addr@);
                            assert(pre.sent_at(i) == self.sent_at(i));
                        }
                    }
                    finish_pointwise(old(self), self, addr@);
                    assert(!final(self).is_open(addr@));
                }
                return ;
            }
            proof {
                assert(self.addrs()[k as int] == self.entries@[k as int].addr@);
            }
            k = k + 1;
        }
        proof {
            if self.contains_addr(addr@) {
                let i = choose|i: int|
                    0 <= i < self.addrs().len() && self.addrs()[i] == addr@;
                assert(false);
            }
            finish_pointwise(old(self), self, addr@);
        }
    }

    /// Sends `payload` through every registered handle. A handle that is no
    /// longer writable simply does not record the frame; the failure does
    /// not stop delivery to the remaining recipients and does not change the
    /// set of registered peers.
    pub fn broadcast(&mut self, payload: &String)
        requires
            old(self).wf(),
        ensures
            final(self).wf(),
            final(self).addrs() == old(self).addrs(),
            forall|a: Seq<char>|
                old(self).contains_addr(a) ==> #[trigger] final(self).log_of(a) == if old(
                    self,
                ).is_open(a) {
                    old(self).log_of(a).push(payload@)
                } else {
                    old(self).log_of(a)
                },
            forall|a: Seq<char>|
                old(self).contains_addr(a) ==> #[trigger] final(self).is_open(a) == old(
                    self,
                ).is_open(a),
    {
        let n = self.entries.len();
        let mut k: usize = 0;
        while k < n
            invariant
                0 <= k <= n,
                n == self.addrs().len(),
                self.addrs() == old(self).addrs(),
                forall|i: int| 0 <= i < k ==> (#[trigger] self.open_at(i)) == old(self).open_at(i),
                forall|i: int|
                    0 <= i < k ==> (#[trigger] self.sent_at(i)) == if old(self).open_at(i) {
                        old(self).sent_at(i).push(payload@)
                    } else {
                        old(self).sent_at(i)
                    },
                forall|i: int| k <= i < n ==> (#[trigger] self.open_at(i)) == old(self).open_at(i),
                forall|i: int| k <= i < n ==> (#[trigger] self.sent_at(i)) == old(self).sent_at(i),
            decreases n - k,
        {
            let ghost before = self.entries@;
            let ghost pre = *self;
            if self.entries[k].handle.open {
                self.entries[k].handle.sent.push(payload.clone());
                proof {
                    assert forall|i: int| 0 <= i < n && i != k as int implies self.entries@[i]
                        == before[i] by {}
                    assert(self.entries@[k as int].addr == before[k as int].addr);
                    assert(self.entries@[k as int].handle.open == before[k as int].handle.open);
                    assert(self.entries@[k as int].handle.sent@ == before[
                        k as int].handle.sent@.push(*payload));
                    assert(self.entries@[k as int].handle.sent.deep_view() =~= before[
                        k as int].handle.sent.deep_view().push(payload@));
                    assert(self.addrs() =~= pre.addrs());
                }
            }
            proof {
                assert forall|i: int|
                    0 <= i < k + 1 implies (#[trigger] self.open_at(i)) == old(self).open_at(
                    i,
                ) by {
                    if i != k as int {
                        assert(self.entries@[i] == before[i]);
                        assert(pre.open_at(i) == self.open_at(i));
                    } else {
                        assert(pre.open_at(i) == old(self).open_at(i));
                    }
                }
                assert forall|i: int|
                    0 <= i < k + 1 implies (#[trigger] self.sent_at(i)) == (if old(
                    self,
                ).open_at(i) {
                    old(self).sent_at(i).push(payload@)
                } else {
                    old(self).sent_at(i)
                }) by {
                    if i != k as int {
                        assert(self.entries@[i] == before[i]);
                        assert(pre.sent_at(i) == self.sent_at(i));
                        assert(pre.open_at(i) == self.open_at(i));
                    } else {
                        assert(pre.sent_at(i) == old(self).sent_at(i));
                        assert(pre.open_at(i) == old(self).open_at(i));
                    }
                }
                assert forall|i: int|
                    k + 1 <= i < n implies (#[trigger] self.open_at(i)) == old(self).open_at(
                    i,
                ) by {
                    assert(self.entries@[i] == before[i]);
                    assert(pre.open_at(i) == self.open_at(i));
                }
                assert forall|i: int|
                    k + 1 <= i < n implies (#[trigger] self.sent_at(i)) == old(self).sent_at(
                    i,
                ) by {
                    assert(self.entries@[i] == before[i]);
                    assert(pre.sent_at(i) == self.sent_at(i));
                }
            }
            k = k + 1;
        }
        proof {
            let news = self.addrs();
            let olds = old(self).addrs();
            assert forall|a: Seq<char>| olds.contains(a) implies #[trigger] final(self).log_of(a)
                == (if old(self).is_open(a) {
                old(self).log_of(a).push(payload@)
            } else {
                old(self).log_of(a)
            }) by {
                let i = choose|i: int| 0 <= i < olds.len() && olds[i] == a;
                lemma_first_idx_hits(olds, a, i);
            }
            assert forall|a: Seq<char>| olds.contains(a) implies #[trigger] final(self).is_open(a)
                == old(self).is_open(a) by {
                let i = choose|i: int| 0 <= i < olds.len() && olds[i] == a;
                lemma_first_idx_hits(olds, a, i);
            }
        }
    }
}

/// If `s[i] == a` and nothing before `i` equals `a`, the first occurrence of
/// `a` is at `i`.
proof fn lemma_first_idx_hits(s: Seq<Seq<char>>, a: Seq<char>, i: int)
    requires
        0 <= i < s.len(),
        s[i] == a,
        forall|j: int| 0 <= j < i ==> s[j] != a,
    ensures
        first_idx(s, a) == i,
    decreases s.len(),
{
    if s[0] == a {
        assert(i == 0);
    } else {
        assert(s.drop_first()[i - 1] == a);
        assert forall|j: int| 0 <= j < i - 1 implies s.drop_first()[j] != a by {
            assert(s.drop_first()[j] == s[j + 1]);
        }
        lemma_first_idx_hits(s.drop_first(), a, i - 1);
    }
}

/// For a well-formed old/new pair whose tables agree everywhere except that
/// the handle at `addr` may have been closed, restate the change per
/// address.
proof fn finish_pointwise(before: &Registry, after: &Registry, addr: Seq<char>)
    requires
        before.wf(),
        after.addrs() == before.addrs(),
        forall|i: int|
            0 <= i < before.addrs().len() ==> after.sent_at(i) == before.sent_at(i),
        forall|i: int|
            0 <= i < before.addrs().len() ==> (before.addrs()[i] != addr ==> after.open_at(i)
                == before.open_at(i)),
    ensures
        after.wf(),
        forall|b: Seq<char>|
            before.contains_addr(b) ==> #[trigger] after.log_of(b) == before.log_of(b),
        forall|b: Seq<char>|
            b != addr && before.contains_addr(b) ==> #[trigger] after.is_open(b) == before.is_open(
                b,
            ),
{
    assert forall|b: Seq<char>| before.contains_addr(b) implies #[trigger] after.log_of(b)
        == before.log_of(b) by {
        let s = before.addrs();
        let i = choose|i: int| 0 <= i < s.len() && s[i] == b;
        lemma_first_idx_hits(s, b, i);
    }
    assert forall|b: Seq<char>| b != addr && before.contains_addr(b) implies #[trigger]
        after.is_open(b) == before.is_open(b) by {
        let s = before.addrs();
        let i = choose|i: int| 0 <= i < s.len() && s[i] == b;
        lemma_first_idx_hits(s, b, i);
    }
}

} // verus!
