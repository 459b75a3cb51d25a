//! Resolves the file names under which a database directory stores
//! each table's schema, data, and index images.
use vstd::prelude::*;
use vstd::string::StringExecFns;

verus! {

/// Knows the directory a database lives in and names its files.
pub struct TableOpener {
    pub dir: String,
}

impl TableOpener {
    pub fn new(dir: String) -> (t: TableOpener)
        ensures
            t.dir == dir,
    {
        TableOpener { dir }
    }

    /// `<dir>/<table>.pbd`: the table's data image.
    pub fn table_data_file_name(&self, table_name: &str) -> (r: String)
        ensures
            r@ == self.dir@ + "/"@ + table_name@ + ".pbd"@,
    {
        let mut out = self.dir.clone();
        out.append("/");
        out.append(table_name);
        out.append(".pbd");
        out
    }

    /// `<dir>/<table>.pbs`: the table's schema file.
    pub fn table_schema_file_name(&self, table_name: &str) -> (r: String)
        ensures
            r@ == self.dir@ + "/"@ + table_name@ + ".pbs"@,
    {
        let mut out = self.dir.clone();
        out.append("/");
        out.append(table_name);
        out.append(".pbs");
        out
    }

    /// `<dir>/<table>__<index>.pbi`: one index's image.
    pub fn index_file_name(&self, table_name: &str, index_name: &str) -> (r: String)
        ensures
            r@ == self.dir@ + "/"@ + table_name@ + "__"@ + index_name@ + ".pbi"@,
    {
        let mut out = self.dir.clone();
        out.append("/");
        out.append(table_name);
        out.append("__");
        out.append(index_name);
        out.append(".pbi");
        out
    }
}

} // verus!
