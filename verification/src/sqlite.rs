use vstd::prelude::*;

verus! {

/// Connection settings for the backing record store: the path of the
/// database file. The querying itself happens at the application boundary;
/// this type carries the configuration for it.
pub struct SqliteDataRepository {
    db_path: String,
}

impl View for SqliteDataRepository {
    type V = Seq<char>;

    closed spec fn view(&self) -> Seq<char> {
        self.db_path@
    }
}

impl SqliteDataRepository {
    /// A repository reading from the given database file.
    pub fn new(db_path: String) -> (s: Self)
        ensures
            s@ == db_path@,
    {
        Self { db_path }
    }

    /// The path of the database file.
    pub fn db_path(&self) -> (r: &String)
        ensures
            r@ == self@,
    {
        &self.db_path
    }
}

} // verus!
