//! Where the polling service keeps its data.

use vstd::prelude::*;

verus! {

/// The database that the service connects to.
#[derive(Clone, Debug)]
pub struct DbConfig {
    /// The kind of database.
    pub db_type: String,
    /// The connection string.
    pub connection_string: String,
    /// The name of the database to use.
    pub database_name: String,
}

impl DbConfig {
    /// A configuration that holds the three values given.
    pub fn new(db_type: &str, connection_string: String, db_name: &str) -> (config: Self)
        ensures
            config.db_type@ == db_type@,
            config.connection_string == connection_string,
            config.database_name@ == db_name@,
    {
        DbConfig {
            db_type: db_type.to_owned(),
            connection_string,
            database_name: db_name.to_owned(),
        }
    }
}

} // verus!
