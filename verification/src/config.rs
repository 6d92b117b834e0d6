//! Configuration: where the files live, which loaded configuration counts,
//! how an API key is shown, and which named profile applies.
use vstd::prelude::*;
use crate::text::{chars_of, extend_range, extend_str, string_from, string_of, trim, trim_range};

verus! {

// ---------------------------------------------------------------------------
// API keys
// ---------------------------------------------------------------------------

/// An API key as it may be shown: its first and last four characters around
/// `****`, or only `****` where the key has eight characters or fewer.
pub open spec fn masked(key: Seq<char>) -> Seq<char> {
    if key.len() <= 8 {
        "****"@
    } else {
        key.take(4) + "****"@ + key.skip(key.len() - 4)
    }
}

/// An API key as it may be shown: its first and last four characters around
/// `****`, or only `****` where the key has eight characters or fewer.
pub fn masked_key(api_key: &str) -> (r: String)
    ensures
        r@ == masked(api_key@),
{
    let chars = chars_of(api_key);
    let n = chars.len();
    let mut out: Vec<char> = Vec::new();
    if n <= 8 {
        extend_str(&mut out, "****");
        proof {
            assert(out@ =~= "****"@);
        }
        return string_of(&out);
    }
    extend_range(&mut out, &chars, 0, 4);
    extend_str(&mut out, "****");
    extend_range(&mut out, &chars, n - 4, n);
    proof {
        assert(chars@.subrange(0, 4) =~= api_key@.take(4));
        assert(chars@.subrange(n - 4, n as int) =~= api_key@.skip(n - 4));
        assert(out@ =~= masked(api_key@));
    }
    string_of(&out)
}

/// A shown key has four characters where the key has at most eight, and
/// twelve otherwise: the four first and four last around `****`.
pub proof fn lemma_masked_len(key: Seq<char>)
    ensures
        masked(key).len() == (if key.len() <= 8 {
            4nat
        } else {
            12nat
        }),
{
    reveal_strlit("****");
}

/// What a shown key is made of: `****` alone for a key of eight characters
/// or fewer; else the key's first four characters, `****`, and the key's
/// last four characters, so that keys that agree there are shown alike.
pub proof fn lemma_masked_parts(key: Seq<char>)
    ensures
        key.len() <= 8 ==> masked(key) == "****"@,
        key.len() > 8 ==> {
            &&& masked(key).len() == 12
            &&& masked(key).take(4) == key.take(4)
            &&& masked(key).subrange(4, 8) == "****"@
            &&& masked(key).skip(8) == key.skip(key.len() - 4)
            &&& forall|i: int| 0 <= i < 4 ==> #[trigger] masked(key)[8 + i] == key[key.len() - 4 + i]
        },
{
    reveal_strlit("****");
    if key.len() > 8 {
        let m = masked(key);
        assert(m.take(4) =~= key.take(4));
        assert(m.subrange(4, 8) =~= "****"@);
        assert(m.skip(8) =~= key.skip(key.len() - 4));
        assert forall|i: int| 0 <= i < 4 implies #[trigger] masked(key)[8 + i] == key[key.len() - 4 + i] by {
            assert(m.skip(8)[i] == m[8 + i]);
        }
    }
}

// ---------------------------------------------------------------------------
// Paths
// ---------------------------------------------------------------------------

/// Whether `c` separates path components on some platform: `/` everywhere,
/// `\\` on Windows.
pub open spec fn is_path_sep(c: char) -> bool {
    c == '/' || c == '\\'
}

/// Whether `seg` is a plain relative path: not empty, not beginning with a
/// separator, and without `:`, so that no platform reads a root or a drive
/// in it.
pub open spec fn plain_segment(seg: Seq<char>) -> bool {
    seg.len() > 0 && !is_path_sep(seg[0]) && !seg.contains(':')
}

/// What `Path::join` gives for a plain segment on every platform: the
/// segment itself after an empty path; the two texts one after the other
/// after a path that ends with `/`; and one separator between them after a
/// path that ends with neither separator nor `:`. Paths that begin with
/// `\\` (Windows UNC and verbatim paths) are left open.
pub open spec fn joins(base: Seq<char>, seg: Seq<char>, r: Seq<char>) -> bool {
    plain_segment(seg) ==> {
        &&& base.len() == 0 ==> r == seg
        &&& (base.len() > 0 && base[0] != '\\' && base.last() == '/') ==> r == base + seg
        &&& (base.len() > 0 && base[0] != '\\' && !is_path_sep(base.last()) && base.last() != ':')
            ==> exists|s: char| is_path_sep(s) && r == base + seq![s] + seg
    }
}

/// Calls `Path::join` on two texts and gives the joined path as text
/// (`to_string_lossy`, which keeps text that was valid UTF-8 unchanged).
/// `Path::join` puts the platform's own separator between the two (`/` on
/// Unix, `\\` on Windows); `joins` states what holds on every platform.
/// Left unsaid: which of the two separators is put in, and what comes of an
/// absolute or prefixed segment or of a UNC or verbatim base.
#[verifier::external_body]
pub(crate) fn path_join(base: &str, seg: &str) -> (r: String)
    ensures
        joins(base@, seg@, r@),
{
    std::path::Path::new(base).join(seg).to_string_lossy().into_owned()
}

/// Joining two plain segments in turn after an ordinary path puts one
/// separator before each.
pub proof fn lemma_joins_twice(base: Seq<char>, s1: Seq<char>, s2: Seq<char>, mid: Seq<char>, r: Seq<char>)
    requires
        joins(base, s1, mid),
        joins(mid, s2, r),
        plain_segment(s1),
        plain_segment(s2),
        !is_path_sep(s1.last()),
        s1.last() != ':',
        base.len() > 0,
        base[0] != '\\',
        !is_path_sep(base.last()),
        base.last() != ':',
    ensures
        exists|a: char, b: char| is_path_sep(a) && is_path_sep(b) && r == base + seq![a] + s1 + seq![b] + s2,
{
    let a = choose|s: char| is_path_sep(s) && mid == base + seq![s] + s1;
    assert(mid[0] == base[0]);
    assert(mid.last() == s1.last());
    let b = choose|s: char| is_path_sep(s) && r == mid + seq![s] + s2;
    assert(r == base + seq![a] + s1 + seq![b] + s2);
}

/// The directory of the user's configuration: `.yunzhi` in the home
/// directory `home`.
pub fn config_dir(home: &str) -> (r: String)
    ensures
        joins(home@, ".yunzhi"@, r@),
{
    path_join(home, ".yunzhi")
}

/// The user's configuration file: `config.toml` in `config_dir(home)`.
pub fn config_path(home: &str) -> (r: String)
    ensures
        exists|dir: Seq<char>| joins(home@, ".yunzhi"@, dir) && joins(dir, "config.toml"@, r@),
{
    let dir = config_dir(home);
    path_join(dir.as_str(), "config.toml")
}

/// The project's memory file: `.yunzhi/memory.md` in the working directory.
pub fn memory_path(cwd: &str) -> (r: String)
    ensures
        exists|dir: Seq<char>| joins(cwd@, ".yunzhi"@, dir) && joins(dir, "memory.md"@, r@),
{
    let dir = path_join(cwd, ".yunzhi");
    path_join(dir.as_str(), "memory.md")
}

/// The user's profiles: `profiles.toml` in `config_dir(home)`.
pub fn global_profiles_path(home: &str) -> (r: String)
    ensures
        exists|dir: Seq<char>| joins(home@, ".yunzhi"@, dir) && joins(dir, "profiles.toml"@, r@),
{
    let dir = config_dir(home);
    path_join(dir.as_str(), "profiles.toml")
}

/// The project's profiles: `.yunzhi/profiles.toml` in the working directory.
pub fn project_profiles_path(cwd: &str) -> (r: String)
    ensures
        exists|dir: Seq<char>| joins(cwd@, ".yunzhi"@, dir) && joins(dir, "profiles.toml"@, r@),
{
    let dir = path_join(cwd, ".yunzhi");
    path_join(dir.as_str(), "profiles.toml")
}

// ---------------------------------------------------------------------------
// The configuration file
// ---------------------------------------------------------------------------

/// The user's configuration.
#[derive(Debug, Clone, PartialEq, Eq)]
pub struct AppConfig {
    pub api_key: String,
    pub model: Option<String>,
}

/// An optional text as an optional sequence of characters.
pub open spec fn opt_text(o: Option<String>) -> Option<Seq<char>> {
    match o {
        Some(s) => Some(s@),
        None => None,
    }
}

/// A configuration as plain values.
pub struct AppConfigModel {
    pub api_key: Seq<char>,
    pub model: Option<Seq<char>>,
}

impl View for AppConfig {
    type V = AppConfigModel;

    open spec fn view(&self) -> AppConfigModel {
        AppConfigModel { api_key: self.api_key@, model: opt_text(self.model) }
    }
}

/// A loaded configuration counts only where its API key is not blank.
pub fn check_loaded_config(cfg: AppConfig) -> (r: Option<AppConfig>)
    ensures
        trim(cfg.api_key@).len() == 0 ==> r is None,
        trim(cfg.api_key@).len() > 0 ==> r == Some(cfg),
{
    let key = chars_of(cfg.api_key.as_str());
    let (a, b) = trim_range(&key, 0, key.len());
    proof {
        assert(key@.subrange(0, key@.len() as int) =~= cfg.api_key@);
    }
    if a == b {
        None
    } else {
        Some(cfg)
    }
}

/// The configuration made from an API key that was typed in: the key
/// trimmed, with `default_model` as the model; `None` where the trimmed key
/// is empty.
pub fn config_from_input(input: &str, default_model: &str) -> (r: Option<AppConfig>)
    ensures
        trim(input@).len() == 0 ==> r is None,
        trim(input@).len() > 0 ==> (r matches Some(c) && c@.api_key == trim(input@) && c@.model == Some(
            default_model@,
        )),
{
    let v = chars_of(input);
    let (a, b) = trim_range(&v, 0, v.len());
    proof {
        assert(v@.subrange(0, v@.len() as int) =~= input@);
    }
    if a == b {
        return None;
    }
    let api_key = string_from(&v, a, b);
    let model = chars_of(default_model);
    Some(AppConfig { api_key, model: Some(string_of(&model)) })
}

// ---------------------------------------------------------------------------
// Profiles
// ---------------------------------------------------------------------------

/// How the assistant works.
#[derive(Debug, Clone, Copy, PartialEq, Eq)]
pub enum AgentMode {
    Chat,
    Agent,
}

/// A named set of settings that override the defaults.
#[derive(Debug, Clone, PartialEq, Eq)]
pub struct ProfileConfig {
    pub persona: Option<String>,
    pub mode: Option<AgentMode>,
    pub model: Option<String>,
    pub max_tokens: Option<u32>,
    pub tools: Option<Vec<String>>,
}

/// A profile as plain values.
pub struct ProfileModel {
    pub persona: Option<Seq<char>>,
    pub mode: Option<AgentMode>,
    pub model: Option<Seq<char>>,
    pub max_tokens: Option<u32>,
    pub tools: Option<Seq<Seq<char>>>,
}

/// An optional list of texts as plain values.
pub open spec fn opt_texts(o: Option<Vec<String>>) -> Option<Seq<Seq<char>>> {
    match o {
        Some(v) => Some(v@.map_values(|s: String| s@)),
        None => None,
    }
}

impl View for ProfileConfig {
    type V = ProfileModel;

    open spec fn view(&self) -> ProfileModel {
        ProfileModel {
            persona: opt_text(self.persona),
            mode: self.mode,
            model: opt_text(self.model),
            max_tokens: self.max_tokens,
            tools: opt_texts(self.tools),
        }
    }
}

/// The profiles of one profiles file, by name. The file's table names each
/// profile once (`names_unique`); the list keeps the names as texts, since
/// a map keyed by `String` gives nothing that can be proved here.
#[derive(Debug, Clone, PartialEq, Eq)]
pub struct ProfilesFile {
    pub profiles: Vec<(String, ProfileConfig)>,
}

/// Whether no name occurs twice among the profiles.
pub open spec fn names_unique(ps: Seq<(Seq<char>, ProfileModel)>) -> bool {
    forall|i: int, j: int| 0 <= i < j < ps.len() ==> #[trigger] ps[i].0 != #[trigger] ps[j].0
}

/// The profiles of a file as plain values.
pub open spec fn profile_models(ps: Seq<(String, ProfileConfig)>) -> Seq<(Seq<char>, ProfileModel)> {
    ps.map_values(|p: (String, ProfileConfig)| (p.0@, p.1@))
}

/// The first profile named `name`, if any.
pub open spec fn find_profile(ps: Seq<(Seq<char>, ProfileModel)>, name: Seq<char>) -> Option<ProfileModel>
    decreases ps.len(),
{
    if ps.len() == 0 {
        None
    } else if ps[0].0 == name {
        Some(ps[0].1)
    } else {
        find_profile(ps.drop_first(), name)
    }
}

/// None is found for a name exactly when no profile has the name.
pub proof fn lemma_find_profile_none(ps: Seq<(Seq<char>, ProfileModel)>, name: Seq<char>)
    ensures
        find_profile(ps, name) is None <==> forall|i: int| 0 <= i < ps.len() ==> #[trigger] ps[i].0 != name,
    decreases ps.len(),
{
    if ps.len() > 0 {
        let rest = ps.drop_first();
        lemma_find_profile_none(rest, name);
        if find_profile(ps, name) is None {
            assert forall|i: int| 0 <= i < ps.len() implies #[trigger] ps[i].0 != name by {
                if i > 0 {
                    assert(rest[i - 1] == ps[i]);
                }
            }
        } else {
            if ps[0].0 != name {
                let i = choose|i: int| 0 <= i < rest.len() && #[trigger] rest[i].0 == name;
                assert(ps[i + 1] == rest[i]);
            }
        }
    }
}

/// Where names are unique, the profile found for a name is the one profile
/// of that name, and none is found exactly when no profile has the name.
pub proof fn lemma_find_profile_unique(ps: Seq<(Seq<char>, ProfileModel)>, name: Seq<char>)
    requires
        names_unique(ps),
    ensures
        forall|i: int| 0 <= i < ps.len() && #[trigger] ps[i].0 == name ==> find_profile(ps, name) == Some(ps[i].1),
        find_profile(ps, name) is None <==> forall|i: int| 0 <= i < ps.len() ==> #[trigger] ps[i].0 != name,
    decreases ps.len(),
{
    lemma_find_profile_none(ps, name);
    if ps.len() > 0 {
        let rest = ps.drop_first();
        assert forall|i: int, j: int| 0 <= i < j < rest.len() implies #[trigger] rest[i].0 != #[trigger] rest[j].0 by {
            assert(rest[i] == ps[i + 1] && rest[j] == ps[j + 1]);
        }
        lemma_find_profile_unique(rest, name);
        assert forall|i: int| 0 <= i < ps.len() && #[trigger] ps[i].0 == name implies find_profile(ps, name) == Some(ps[i].1) by {
            if i > 0 {
                assert(ps[0].0 != ps[i].0);
                assert(rest[i - 1] == ps[i]);
            }
        }
    }
}

/// The model of a profile that may be absent.
pub open spec fn opt_profile(r: Option<ProfileConfig>) -> Option<ProfileModel> {
    match r {
        Some(p) => Some(p@),
        None => None,
    }
}

/// The profile that an optional file names `name`.
pub open spec fn profile_in(file: Option<&ProfilesFile>, name: Seq<char>) -> Option<ProfileModel> {
    match file {
        Some(f) => find_profile(profile_models(f.profiles@), name),
        None => None,
    }
}

fn copy_text(s: &String) -> (r: String)
    ensures
        r@ == s@,
{
    let v = chars_of(s.as_str());
    string_of(&v)
}

fn copy_opt_text(o: &Option<String>) -> (r: Option<String>)
    ensures
        opt_text(r) == opt_text(*o),
{
    match o {
        Some(s) => Some(copy_text(s)),
        None => None,
    }
}

fn copy_profile(p: &ProfileConfig) -> (r: ProfileConfig)
    ensures
        r@ == p@,
{
    let tools = match &p.tools {
        Some(ts) => {
            let mut out: Vec<String> = Vec::new();
            let mut i: usize = 0;
            while i < ts.len()
                invariant
                    i <= ts@.len(),
                    out@.len() == i,
                    forall|k: int| 0 <= k < i ==> (#[trigger] out@[k])@ == ts@[k]@,
                decreases ts@.len() - i,
            {
                out.push(copy_text(&ts[i]));
                i = i + 1;
            }
            proof {
                assert(out@.map_values(|s: String| s@) =~= ts@.map_values(|s: String| s@));
            }
            Some(out)
        },
        None => None,
    };
    ProfileConfig {
        persona: copy_opt_text(&p.persona),
        mode: p.mode,
        model: copy_opt_text(&p.model),
        max_tokens: p.max_tokens,
        tools,
    }
}

/// Whether the profile at index `i` of a file is named `name`.
pub open spec fn named_at(file: &ProfilesFile, name: Seq<char>, i: int) -> bool {
    0 <= i < file.profiles@.len() && file.profiles@[i].0@ == name
}

/// Whether no profile of a file is named `name`.
pub open spec fn names_none(file: &ProfilesFile, name: Seq<char>) -> bool {
    forall|i: int| !#[trigger] named_at(file, name, i)
}

/// Whether no name occurs twice in a file.
pub open spec fn file_names_unique(file: &ProfilesFile) -> bool {
    names_unique(profile_models(file.profiles@))
}

/// What holds of any file and name: none is found exactly when no profile
/// has the name, and where names are unique the one profile of that name
/// is found.
proof fn lemma_lookup_facts(file: &ProfilesFile, name: Seq<char>)
    ensures
        find_profile(profile_models(file.profiles@), name) is None <==> names_none(file, name),
        file_names_unique(file) ==> forall|i: int| #[trigger] named_at(file, name, i)
            ==> find_profile(profile_models(file.profiles@), name) == Some(file.profiles@[i].1@),
{
    let ps = profile_models(file.profiles@);
    lemma_find_profile_none(ps, name);
    assert(names_none(file, name) <==> forall|i: int| 0 <= i < ps.len() ==> #[trigger] ps[i].0 != name) by {
        if names_none(file, name) {
            assert forall|i: int| 0 <= i < ps.len() implies #[trigger] ps[i].0 != name by {
                assert(!named_at(file, name, i));
            }
        }
        if forall|i: int| 0 <= i < ps.len() ==> #[trigger] ps[i].0 != name {
            assert forall|i: int| !#[trigger] named_at(file, name, i) by {
                if 0 <= i < ps.len() {
                    assert(ps[i].0 != name);
                }
            }
        }
    }
    if file_names_unique(file) {
        lemma_find_profile_unique(ps, name);
        assert forall|i: int| #[trigger] named_at(file, name, i) implies find_profile(ps, name) == Some(file.profiles@[i].1@) by {
            assert(ps[i].0 == name);
        }
    }
}

/// The profile that a file names `name`, if it names one: none exactly when
/// no profile has the name, and where no name occurs twice, the one profile
/// of that name.
pub fn lookup_profile(file: &ProfilesFile, name: &str) -> (r: Option<ProfileConfig>)
    ensures
        opt_profile(r) == find_profile(profile_models(file.profiles@), name@),
        r is None <==> names_none(file, name@),
        file_names_unique(file) ==> forall|i: int| #[trigger] named_at(file, name@, i)
            ==> opt_profile(r) == Some(file.profiles@[i].1@),
{
    let target = chars_of(name);
    let ghost ps = profile_models(file.profiles@);
    let mut i: usize = 0;
    proof {
        assert(ps.skip(0) =~= ps);
    }
    while i < file.profiles.len()
        invariant
            i <= file.profiles@.len() == ps.len(),
            ps == profile_models(file.profiles@),
            target@ == name@,
            find_profile(ps, name@) == find_profile(ps.skip(i as int), name@),
        decreases file.profiles@.len() - i,
    {
        let key = chars_of(file.profiles[i].0.as_str());
        proof {
            assert(ps.skip(i as int)[0] == ps[i as int]);
            assert(ps.skip(i as int).drop_first() =~= ps.skip(i + 1));
        }
        if crate::text::chars_eq(&key, &target) {
            proof {
                lemma_lookup_facts(file, name@);
            }
            return Some(copy_profile(&file.profiles[i].1));
        }
        i = i + 1;
    }
    proof {
        lemma_lookup_facts(file, name@);
    }
    None
}

/// Whether an optional file has no profile named `name`.
pub open spec fn opt_names_none(file: Option<&ProfilesFile>, name: Seq<char>) -> bool {
    match file {
        Some(f) => names_none(f, name),
        None => true,
    }
}

/// The profile named `name`: the project's where the project's profiles name
/// it, else the user's. None comes back exactly when neither file has a
/// profile of that name; where a file names no profile twice, the profile
/// taken from it is the one of that name.
pub fn load_profile(project: Option<&ProfilesFile>, global: Option<&ProfilesFile>, name: &str) -> (r: Option<ProfileConfig>)
    ensures
        opt_profile(r) == match profile_in(project, name@) {
            Some(p) => Some(p),
            None => profile_in(global, name@),
        },
        r is None <==> opt_names_none(project, name@) && opt_names_none(global, name@),
        project matches Some(f) ==> (file_names_unique(f) ==> forall|i: int| #[trigger] named_at(f, name@, i)
            ==> opt_profile(r) == Some(f.profiles@[i].1@)),
        opt_names_none(project, name@) ==> (global matches Some(g) ==> (file_names_unique(g) ==> forall|i: int|
            #[trigger] named_at(g, name@, i) ==> opt_profile(r) == Some(g.profiles@[i].1@))),
{
    proof {
        if let Some(f) = project {
            lemma_lookup_facts(f, name@);
        }
        if let Some(g) = global {
            lemma_lookup_facts(g, name@);
        }
    }
    if let Some(file) = project {
        let found = lookup_profile(file, name);
        if found.is_some() {
            return found;
        }
    }
    match global {
        Some(file) => lookup_profile(file, name),
        None => None,
    }
}

} // verus!
