//! What the library keeps of the file system: the events that it is told
//! of, and the filter that keeps the echo of its own writes out.

use vstd::prelude::*;
use crate::text::str_eq;

verus! {

/// What happened at a path.
#[derive(Debug, Clone, Copy, PartialEq, Eq, Structural)]
pub enum FsEventKind {
    Created,
    Modified,
    Removed,
}

/// An event of the file system.
#[derive(Debug)]
pub struct FsEvent {
    pub kind: FsEventKind,
    pub path: String,
}

/// The mathematical value of an [`Echo`].
pub struct EchoView {
    pub path: Seq<char>,
    pub hash: u64,
    pub at: u64,
}

/// A write that the library made: where, a hash of what, and when, on the
/// caller's clock.
#[derive(Debug)]
pub struct Echo {
    pub path: String,
    pub hash: u64,
    pub at: u64,
}

impl View for Echo {
    type V = EchoView;

    open spec fn view(&self) -> EchoView {
        EchoView { path: self.path@, hash: self.hash, at: self.at }
    }
}

/// Whether a write made at `at` is still within the window at `now`.
pub open spec fn in_window(at: u64, now: u64, window: u64) -> bool {
    at <= now && now - at <= window
}

/// Whether an event at `path` with content of the hash `hash` at `now` is
/// the echo of the write `echo`.
pub open spec fn echoes(echo: EchoView, path: Seq<char>, hash: u64, now: u64, window: u64) -> bool {
    echo.path == path && echo.hash == hash && in_window(echo.at, now, window)
}

/// The position of the first of the first `count` writes that the event echoes.
pub open spec fn first_echo(
    writes: Seq<EchoView>,
    path: Seq<char>,
    hash: u64,
    now: u64,
    window: u64,
    count: nat,
) -> Option<int>
    decreases count,
{
    if count == 0 || count > writes.len() {
        None
    } else {
        match first_echo(writes, path, hash, now, window, (count - 1) as nat) {
            Some(i) => Some(i),
            None => if echoes(writes[count - 1], path, hash, now, window) {
                Some(count - 1)
            } else {
                None
            },
        }
    }
}

/// Those of the first `count` writes that are within the window at `now`, in order.
pub open spec fn recent(writes: Seq<EchoView>, now: u64, window: u64, count: nat) -> Seq<EchoView>
    decreases count,
{
    if count == 0 || count > writes.len() {
        Seq::empty()
    } else if in_window(writes[count - 1].at, now, window) {
        recent(writes, now, window, (count - 1) as nat).push(writes[count - 1])
    } else {
        recent(writes, now, window, (count - 1) as nat)
    }
}

/// Once the first write that an event echoes is found, it stays the first.
proof fn lemma_first_echo(
    writes: Seq<EchoView>,
    path: Seq<char>,
    hash: u64,
    now: u64,
    window: u64,
    at: int,
    count: nat,
)
    requires
        0 <= at < count <= writes.len(),
        first_echo(writes, path, hash, now, window, at as nat) is None,
        echoes(writes[at], path, hash, now, window),
    ensures
        first_echo(writes, path, hash, now, window, count) == Some(at),
    decreases count,
{
    if count > at + 1 {
        lemma_first_echo(writes, path, hash, now, window, at, (count - 1) as nat);
    }
}

/// The filter that tells the events caused by the library's own writes from
/// those caused by others.
#[derive(Debug)]
pub struct EchoFilter {
    writes: Vec<Echo>,
    window: u64,
}

impl View for EchoFilter {
    type V = Seq<EchoView>;

    closed spec fn view(&self) -> Seq<EchoView> {
        Seq::new(self.writes@.len(), |i: int| self.writes@[i]@)
    }
}

impl EchoFilter {
    /// For how long after a write an event counts as its echo.
    pub closed spec fn span(&self) -> u64 {
        self.window
    }

    /// A filter without writes.
    pub fn new(window: u64) -> (filter: EchoFilter)
        ensures
            filter@ == Seq::<EchoView>::empty(),
            filter.span() == window,
    {
        let filter = EchoFilter { writes: Vec::new(), window };
        assert(filter@ =~= Seq::<EchoView>::empty());
        filter
    }

    /// The number of writes that are kept.
    pub fn len(&self) -> (count: usize)
        ensures
            count == self@.len(),
    {
        self.writes.len()
    }

    /// Takes note of a write.
    pub fn record(&mut self, path: &str, hash: u64, now: u64)
        ensures
            final(self).span() == old(self).span(),
            final(self)@ == old(self)@.push(EchoView { path: path@, hash, at: now }),
    {
        self.writes.push(Echo { path: path.to_owned(), hash, at: now });
        assert(self@ =~= old(self)@.push(EchoView { path: path@, hash, at: now }));
    }

    /// Whether an event is the echo of a write; the first write that it
    /// echoes is then taken out, so that it keeps out one event.
    pub fn suppress(&mut self, path: &str, hash: u64, now: u64) -> (echo: bool)
        ensures
            final(self).span() == old(self).span(),
            echo == first_echo(old(self)@, path@, hash, now, old(self).span(), old(self)@.len()) is Some,
            final(self)@ == match first_echo(
                old(self)@,
                path@,
                hash,
                now,
                old(self).span(),
                old(self)@.len(),
            ) {
                Some(i) => old(self)@.remove(i),
                None => old(self)@,
            },
    {
        let ghost before = self@;
        let mut i: usize = 0;
        while i < self.writes.len()
            invariant
                self@ == before,
                before == old(self)@,
                self.window == old(self).span(),
                i <= self.writes@.len(),
                first_echo(before, path@, hash, now, self.window, i as nat) is None,
            decreases self.writes@.len() - i,
        {
            let entry = &self.writes[i];
            assert(before[i as int] == entry@);
            if entry.hash == hash && entry.at <= now && now - entry.at <= self.window && str_eq(
                entry.path.as_str(),
                path,
            ) {
                proof {
                    lemma_first_echo(before, path@, hash, now, self.window, i as int, before.len());
                }
                self.writes.remove(i);
                assert(self@ =~= before.remove(i as int));
                return true;
            }
            i += 1;
        }
        false
    }

    /// Drops the writes that are no longer within the window.
    pub fn prune(&mut self, now: u64)
        ensures
            final(self).span() == old(self).span(),
            final(self)@ == recent(old(self)@, now, old(self).span(), old(self)@.len()),
    {
        let ghost before = self@;
        let mut kept: Vec<Echo> = Vec::new();
        let mut all: Vec<Echo> = Vec::new();
        std::mem::swap(&mut self.writes, &mut all);
        let ghost list = all@;
        assert(before == Seq::new(list.len(), |i: int| list[i]@));
        let mut i: usize = 0;
        while i < all.len()
            invariant
                all@ == list,
                before == Seq::new(list.len(), |i: int| list[i]@),
                i <= list.len(),
                Seq::new(kept@.len(), |k: int| kept@[k]@) == recent(before, now, self.window, i as nat),
            decreases list.len() - i,
        {
            let entry = &all[i];
            let ghost shown = Seq::new(kept@.len(), |k: int| kept@[k]@);
            assert(before[i as int] == entry@);
            if entry.at <= now && now - entry.at <= self.window {
                kept.push(Echo { path: entry.path.clone(), hash: entry.hash, at: entry.at });
                assert(Seq::new(kept@.len(), |k: int| kept@[k]@) =~= shown.push(entry@));
            }
            i += 1;
        }
        self.writes = kept;
    }
}

} // verus!
