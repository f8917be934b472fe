//! The navigation state: the path that is active, held in an observable
//! cell, and the remainder that is staged for nested matching.

use crate::path::{split_path, split_path_spec, texts};
use futures_signals::signal::{Mutable, MutableSignalCloned};
use vstd::prelude::*;

verus! {

/// `futures_signals::signal::Mutable`, the observable cell. Nothing inside it
/// is visible to the verifier.
#[verifier::external_type_specification]
#[verifier::external_body]
#[verifier::reject_recursive_types(A)]
pub struct ExMutable<A>(Mutable<A>);

/// `futures_signals::signal::MutableSignalCloned`, the signal of a cell.
/// Nothing inside it is visible to the verifier.
#[verifier::external_type_specification]
#[verifier::external_body]
#[verifier::reject_recursive_types(A)]
pub struct ExMutableSignalCloned<A>(MutableSignalCloned<A>);

/// The texts of the path segments that a cell holds.
///
/// A cell is a handle on shared state that its methods change through `&`.
/// Here every change goes through a wrapper that takes the cell by `&mut`,
/// and the router never clones its cell, so what a cell holds changes only
/// where the verifier sees it change.
pub uninterp spec fn cell_value(cell: Mutable<Vec<String>>) -> Seq<Seq<char>>;

/// Calls `Mutable::new`. Believed: the new cell holds `value`.
#[verifier::external_body]
fn cell_new(value: Vec<String>) -> (cell: Mutable<Vec<String>>)
    ensures
        cell_value(cell) == texts(value@),
{
    Mutable::new(value)
}

/// Calls `Mutable::replace`. Believed: afterwards the cell holds `value`, and
/// the result is what it held before. The call also wakes the tasks that
/// wait on signals of the cell, of which nothing is stated. It takes the
/// lock inside the cell for its own length only; no guard on that lock is
/// ever handed out here.
#[verifier::external_body]
fn cell_replace(cell: &mut Mutable<Vec<String>>, value: Vec<String>) -> (previous: Vec<String>)
    ensures
        cell_value(*final(cell)) == texts(value@),
        texts(previous@) == cell_value(*old(cell)),
{
    cell.replace(value)
}

/// Calls `get_cloned` of the cell (a method of `ReadOnlyMutable`, which a
/// `Mutable` derefs to). Believed: the result is a copy of what the cell
/// holds.
#[verifier::external_body]
fn cell_get(cell: &Mutable<Vec<String>>) -> (value: Vec<String>)
    ensures
        texts(value@) == cell_value(*cell),
{
    cell.get_cloned()
}

/// Calls `signal_cloned` of the cell (a method of `ReadOnlyMutable`). The
/// signal yields a copy of what the cell holds when it is first polled and
/// again after each change. Nothing is stated of it: a signal is polled by
/// a task outside this library.
#[verifier::external_body]
fn cell_signal(cell: &Mutable<Vec<String>>) -> (signal: MutableSignalCloned<Vec<String>>) {
    cell.signal_cloned()
}

/// The navigation state. The current path changes only by `goto`; the
/// remainder also by `set_remainder`, by which a parent stage hands the
/// segments that it did not consume to a nested stage.
pub struct Router {
    current_path: Mutable<Vec<String>>,
    remainder: Vec<String>,
}

impl Router {
    /// The segments of the current path.
    pub closed spec fn current(&self) -> Seq<Seq<char>> {
        cell_value(self.current_path)
    }

    /// The segments that are staged for nested matching.
    pub closed spec fn staged(&self) -> Seq<Seq<char>> {
        texts(self.remainder@)
    }

    /// The state for the location `path`: its segments are the current path
    /// and the remainder.
    pub fn new(path: &str) -> (router: Self)
        ensures
            router.current() == split_path_spec(path@),
            router.staged() == split_path_spec(path@),
    {
        let segments = split_path(path);
        let staged = segments.clone();
        Router { current_path: cell_new(segments), remainder: staged }
    }

    /// Replaces the remainder and leaves the current path as it is.
    pub fn set_remainder(&mut self, remainder: Vec<String>)
        ensures
            final(self).staged() == texts(remainder@),
            final(self).current() == old(self).current(),
    {
        self.remainder = remainder;
    }

    /// Makes the segments of `path` the current path and the remainder,
    /// whatever the remainder was, and wakes the signals of the current
    /// path.
    pub fn goto(&mut self, path: &str)
        ensures
            final(self).current() == split_path_spec(path@),
            final(self).staged() == split_path_spec(path@),
    {
        let segments = split_path(path);
        let staged = segments.clone();
        self.remainder = staged;
        let _ = cell_replace(&mut self.current_path, segments);
    }

    /// A copy of the segments of the current path.
    pub fn current_path(&self) -> (segments: Vec<String>)
        ensures
            texts(segments@) == self.current(),
    {
        cell_get(&self.current_path)
    }

    /// A copy of the remainder: what a subscriber of the path is to see at
    /// each change of the current path.
    pub fn remainder(&self) -> (segments: Vec<String>)
        ensures
            texts(segments@) == self.staged(),
    {
        self.remainder.clone()
    }

    /// A signal of the current path. It fires when it is first polled and
    /// again after each `goto`; `set_remainder` does not fire it. A
    /// subscriber that is to see the remainder reads `remainder` at each
    /// firing.
    pub fn changes(&self) -> (signal: MutableSignalCloned<Vec<String>>) {
        cell_signal(&self.current_path)
    }
}

} // verus!
