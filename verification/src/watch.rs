//! What a debounced batch of file-system events means for the watched file.
//!
//! The parent directory is watched (not the file itself) so atomic saves
//! that replace the file keep reporting. The debouncer reports no
//! remove/create distinction, so deletion is told apart by whether the file
//! exists when a batch that touches it arrives.

use vstd::prelude::*;

verus! {

/// Coalesced change for the watched file.
#[derive(Debug, Clone, Copy, PartialEq, Eq, Structural)]
pub enum WatchEvent {
    /// Content may have changed; reload and re-render.
    Modified,
    /// The file is gone; show the missing banner until it reappears.
    Gone,
}

/// What one debounced batch reports: nothing unless some event of the
/// batch touches the watched file (`touches[i]` for event `i`); then
/// `Modified` when the file exists afterwards, `Gone` when it does not.
pub open spec fn batch_event_spec(touches: Seq<bool>, exists: bool) -> Option<WatchEvent> {
    if touches.contains(true) {
        Some(if exists { WatchEvent::Modified } else { WatchEvent::Gone })
    } else {
        None
    }
}

/// The event one debounced batch delivers (see [`batch_event_spec`]).
pub fn batch_event(touches: &[bool], exists: bool) -> (e: Option<WatchEvent>)
    ensures
        e == batch_event_spec(touches@, exists),
{
    let mut hit = false;
    let mut i: usize = 0;
    while i < touches.len()
        invariant
            i <= touches.len(),
            hit <==> touches@.subrange(0, i as int).contains(true),
        decreases touches.len() - i,
    {
        if touches[i] {
            assert(touches@.subrange(0, i + 1)[i as int] == true);
            hit = true;
        } else if hit {
            proof {
                let j = choose|j: int| 0 <= j < i && touches@.subrange(0, i as int)[j] == true;
                assert(touches@.subrange(0, i + 1)[j] == true);
            }
        }
        i += 1;
        assert(hit ==> touches@.subrange(0, i as int).contains(true));
    }
    assert(touches@.subrange(0, i as int) =~= touches@);
    if !hit {
        None
    } else if exists {
        Some(WatchEvent::Modified)
    } else {
        Some(WatchEvent::Gone)
    }
}

} // verus!
