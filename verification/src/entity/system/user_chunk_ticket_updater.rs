use crate::common::world::point::Point3;
use vstd::prelude::*;

verus! {

/// Whether a chunk loader must submit a ticket for `current_chunk`, the chunk its entity is in:
/// where it holds no ticket, or one for another chunk.
pub fn needs_ticket(ticket_chunk: Option<Point3<i64>>, current_chunk: Point3<i64>) -> (r: bool)
    ensures
        r == (ticket_chunk != Some(current_chunk)),
{
    match ticket_chunk {
        None => true,
        Some(ticket) => ticket != current_chunk,
    }
}

} // verus!
