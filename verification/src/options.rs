//! The settings of a run.
use vstd::prelude::*;

verus! {

/// The settings of a run: where the store is, which record sets are meant, and
/// how changes are handled.
#[derive(Debug)]
pub struct Options {
    /// Where to reach the store.
    pub connection_uri: String,
    /// The database whose records are repaired.
    pub database_name: Option<String>,
    /// The record sets to go through; none named means all of the database.
    pub collection_names: Vec<String>,
    /// Whether each repair is confirmed by hand.
    pub confirm: Option<bool>,
    /// Whether to report only and write nothing back.
    pub dry_run: bool,
}

/// Which record sets a run goes through.
#[derive(Clone, Copy, Debug, PartialEq, Eq, Structural)]
pub enum Selection {
    /// No database was named: there is nothing to go through.
    Nothing,
    /// Every record set of the database.
    Every,
    /// The record sets that were named.
    Named,
}

impl Options {
    /// Whether repairs are confirmed by hand: only where that was asked for.
    pub fn confirms(&self) -> (on: bool)
        ensures
            on == (self.confirm == Some(true)),
    {
        match self.confirm {
            Some(on) => on,
            None => false,
        }
    }

    /// Which record sets the run goes through.
    pub fn selection(&self) -> (selection: Selection)
        ensures
            selection == if self.database_name is None {
                Selection::Nothing
            } else if self.collection_names.len() == 0 {
                Selection::Every
            } else {
                Selection::Named
            },
    {
        if self.database_name.is_none() {
            Selection::Nothing
        } else if self.collection_names.len() == 0 {
            Selection::Every
        } else {
            Selection::Named
        }
    }
}

} // verus!
