use crate::drivers::common::{DriverError, Snapshot};
use vstd::prelude::*;

verus! {

/// Why the two builds of one session did not yield two snapshots: which side failed, or
/// that both did, with the failure of each side that failed.
#[derive(Debug)]
pub enum SessionError {
    Source(DriverError),
    Destination(DriverError),
    Both { source: DriverError, destination: DriverError },
}

/// Joins the outcomes of the source build and the destination build. Both snapshots are
/// handed on when both builds succeeded; else the failure of every side that failed is
/// reported, and a success of the other side does not hide it.
pub fn join_snapshots(
    source: Result<Snapshot, DriverError>,
    dest: Result<Snapshot, DriverError>,
) -> (r: Result<(Snapshot, Snapshot), SessionError>)
    ensures
        r == match (source, dest) {
            (Ok(source), Ok(dest)) => Ok::<(Snapshot, Snapshot), SessionError>((source, dest)),
            (Err(source), Ok(_)) => Err(SessionError::Source(source)),
            (Ok(_), Err(dest)) => Err(SessionError::Destination(dest)),
            (Err(source), Err(dest)) => Err(
                SessionError::Both { source, destination: dest },
            ),
        },
{
    match (source, dest) {
        (Err(source), Err(dest)) => Err(SessionError::Both { source, destination: dest }),
        (Err(source), Ok(_)) => Err(SessionError::Source(source)),
        (Ok(_), Err(dest)) => Err(SessionError::Destination(dest)),
        (Ok(source), Ok(dest)) => Ok((source, dest)),
    }
}

} // verus!
