use vstd::prelude::*;

verus! {

/// The application settings the rest of the library reads: where the
/// history file lives, the co-access window size, and the path aliases as
/// `(alias, path)` pairs in configuration order.
pub struct AppConfig {
    pub history_path: String,
    pub coaccess_window: usize,
    pub path_aliases: Vec<(String, String)>,
}

impl AppConfig {
    /// The settings used when no configuration file is read: the history
    /// file `.cd_history` under the home directory (or under `.` when no
    /// home is known), a window of 3, and no aliases.
    pub fn with_home(home: Option<&String>) -> (c: AppConfig)
        ensures
            c.history_path@ == match home {
                Some(h) => h@ + "/.cd_history"@,
                None => "./.cd_history"@,
            },
            c.coaccess_window == 3,
            c.path_aliases@.len() == 0,
    {
        let history_path = match home {
            Some(h) => {
                let mut p = h.clone();
                p.append("/.cd_history");
                p
            },
            None => String::from_str("./.cd_history"),
        };
        AppConfig { history_path, coaccess_window: 3, path_aliases: Vec::new() }
    }

    /// The alias table as the display formatter wants it: `(path, alias)`
    /// pairs, in configuration order.
    pub fn path_aliases(&self) -> (r: Vec<(String, String)>)
        ensures
            r.deep_view().len() == self.path_aliases.deep_view().len(),
            forall|i: int|
                0 <= i < r.deep_view().len() ==> #[trigger] r.deep_view()[i] == (
                    self.path_aliases.deep_view()[i].1,
                    self.path_aliases.deep_view()[i].0,
                ),
    {
        let mut out: Vec<(String, String)> = Vec::new();
        let mut i: usize = 0;
        while i < self.path_aliases.len()
            invariant
                i <= self.path_aliases@.len(),
                out@.len() == i,
                forall|k: int|
                    0 <= k < i ==> #[trigger] out.deep_view()[k] == (
                        self.path_aliases.deep_view()[k].1,
                        self.path_aliases.deep_view()[k].0,
                    ),
            decreases self.path_aliases@.len() - i,
        {
            let (alias, path) = (&self.path_aliases[i].0, &self.path_aliases[i].1);
            let ghost oldout = out.deep_view();
            out.push((path.clone(), alias.clone()));
            proof {
                assert(out.deep_view() =~= oldout.push((path@, alias@)));
                assert(self.path_aliases.deep_view()[i as int] == (alias@, path@));
            }
            i = i + 1;
        }
        out
    }
}

} // verus!
