//! The settings of `werss.toml`, their defaults, and the template written by `--init-config`.
use vstd::prelude::*;

use crate::text::{
    chars_of, join, lemma_split_on_join, split_on, string_of, trim_chars, trim_ws, to_string,
};

verus! {

/// Where the API is and whom to log in as.
pub struct ApiConfig {
    pub base: String,
    pub username: String,
    pub password: String,
}

/// Either one string or a list of strings: `target_mps = "all"` or `["ID1", "ID2"]`.
pub enum TomlVecOrString {
    String(String),
    Array(Vec<String>),
}

/// What to sync and where to write it.
pub struct SyncConfig {
    pub target_mps: TomlVecOrString,
    pub output_dir: String,
    pub workspace_dir: String,
    pub max_failures: u32,
    pub since: String,
    pub until: String,
    pub limit: u32,
    pub start_page: i64,
    pub end_page: i64,
}

/// The whole configuration file.
pub struct Config {
    pub api: ApiConfig,
    pub sync: SyncConfig,
}

impl Default for ApiConfig {
    /// Empty base URL, username and password.
    fn default() -> (r: ApiConfig)
        ensures
            r.base@ == Seq::<char>::empty(),
            r.username@ == Seq::<char>::empty(),
            r.password@ == Seq::<char>::empty(),
    {
        ApiConfig { base: String::new(), username: String::new(), password: String::new() }
    }
}

/// The sync settings hold their defaults: all MPs, `./articles`, no workspace, three
/// failures before giving up, no date range, no limit, pages 0 to 1.
pub open spec fn is_default_sync(c: SyncConfig) -> bool {
    &&& c.target_mps matches TomlVecOrString::String(s) && s@ == "all"@
    &&& c.output_dir@ == "./articles"@
    &&& c.workspace_dir@ == Seq::<char>::empty()
    &&& c.max_failures == 3
    &&& c.since@ == Seq::<char>::empty()
    &&& c.until@ == Seq::<char>::empty()
    &&& c.limit == 0
    &&& c.start_page == 0
    &&& c.end_page == 1
}

impl Default for SyncConfig {
    /// Every MP, into `./articles`, no workspace, give up after three failures, no date
    /// range, no limit, pages 0 to 1.
    fn default() -> (r: SyncConfig)
        ensures
            is_default_sync(r),
    {
        SyncConfig {
            target_mps: TomlVecOrString::String(to_string("all")),
            output_dir: to_string("./articles"),
            workspace_dir: String::new(),
            max_failures: 3,
            since: String::new(),
            until: String::new(),
            limit: 0,
            start_page: 0,
            end_page: 1,
        }
    }
}

impl Default for Config {
    /// Default API and sync settings.
    fn default() -> (r: Config)
        ensures
            r.api.base@ == Seq::<char>::empty(),
            r.api.username@ == Seq::<char>::empty(),
            r.api.password@ == Seq::<char>::empty(),
            is_default_sync(r.sync),
    {
        Config { api: ApiConfig::default(), sync: SyncConfig::default() }
    }
}

/// The views of a vector of strings.
pub open spec fn string_views(v: Seq<String>) -> Seq<Seq<char>> {
    v.map_values(|s: String| s@)
}

/// A list written as one comma-separated string: the string itself, or the list's items
/// joined with `','`.
pub open spec fn comma_string(t: TomlVecOrString) -> Seq<char> {
    match t {
        TomlVecOrString::String(s) => s@,
        TomlVecOrString::Array(v) => join(string_views(v@), seq![',']),
    }
}

impl TomlVecOrString {
    /// The value as one comma-separated string.
    pub fn to_comma_string(&self) -> (r: String)
        ensures
            r@ == comma_string(*self),
    {
        match self {
            TomlVecOrString::String(s) => s.clone(),
            TomlVecOrString::Array(v) => {
                let mut r = String::new();
                let mut i: usize = 0;
                while i < v.len()
                    invariant
                        i <= v@.len(),
                        r@ == join(string_views(v@).take(i as int), seq![',']),
                    decreases v.len() - i,
                {
                    proof {
                        assert(string_views(v@).take(i + 1).drop_last() =~= string_views(v@).take(
                            i as int,
                        ));
                        if i == 0 {
                            assert(string_views(v@).take(1) =~= seq![v@[0]@]);
                        }
                    }
                    if i > 0 {
                        r.append(",");
                        proof {
                            assert(","@ =~= seq![',']) by {
                                reveal_strlit(",");
                            }
                        }
                    }
                    r.append(v[i].as_str());
                    i += 1;
                }
                proof {
                    assert(string_views(v@).take(v.len() as int) =~= string_views(v@));
                }
                r
            },
        }
    }
}

/// A non-empty list whose items hold no comma comes back whole when its
/// comma-separated string is split at each `','`.
pub proof fn lemma_comma_string_splits_back(v: Vec<String>)
    requires
        v@.len() >= 1,
        forall|i: int| 0 <= i < v@.len() ==> !(#[trigger] v@[i])@.contains(','),
    ensures
        split_on(comma_string(TomlVecOrString::Array(v)), ',') == string_views(v@),
{
    let parts = string_views(v@);
    assert forall|i: int| 0 <= i < parts.len() implies !(#[trigger] parts[i]).contains(',') by {
        assert(parts[i] == v@[i]@);
    }
    lemma_split_on_join(parts, ',');
}

/// The template that `--init-config` writes, before trimming.
pub const EXAMPLE_CONFIG: &'static str = "# werss-cli configuration

[api]
base = \"http://your-server:8001\"
username = \"your-username\"
password = \"your-password\"

[sync]
# \"all\" to fetch every MP, or a list of IDs
target_mps = \"all\"
# target_mps = [\"MP_WXS_3079106503\", \"MP_WXS_3540720447\"]
output_dir = \"./articles\"
workspace_dir = \"\"
# Max retry count for failed articles (0 = retry forever)
max_failures = 3
# Only fetch articles published since this date (YYYY-MM-DD)
since = \"\"
# Only fetch articles published until this date (YYYY-MM-DD)
until = \"\"
# Max number of articles to fetch per run (0 = no limit)
limit = 0
# Page range for sync (start_page=0, end_page=1 means only latest page)
start_page = 0
end_page = 1
";

/// The configuration template, trimmed.
pub fn generate_example() -> (r: String)
    ensures
        r@ == trim_ws(EXAMPLE_CONFIG@),
{
    let v = chars_of(EXAMPLE_CONFIG);
    let t = trim_chars(&v);
    string_of(&t)
}

}
