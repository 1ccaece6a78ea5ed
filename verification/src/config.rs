use vstd::prelude::*;

use crate::error::SpoutError;

verus! {

/// The configuration written by `spout -g`.
pub const DEFAULT_CONFIG: &'static str = r#"default "x0"

clipboard "wl-copy"
// clipboard "xclip" "-selection" "clipboard"
// clipboard "xsel" "--clipboard" "--input"

profile "x0" {
    url "https://x0.at"
    method "POST"
    format "multipart"
    file-field "file"
    path "."
    filename random=8 extension="png"
}

profile "zendesk" {
    url "https://support.zendesk.com/api/v2/uploads.json?filename={filename}"
    method "POST"
    format "binary"
    header "Content-Type" "application/octet-stream"
    path "upload.attachment.mapped_content_url"
    filename prefix="spout_" random=8 extension="png"
}

profile "ez" {
    url "https://api.e-z.host/files"
    method "POST"
    format "multipart"
    file-field "file"
    header "key" "YOUR_API_KEY_HERE"
    path "imageUrl"
    filename random=8 extension="png"
}

profile "imgur" {
    url "https://api.imgur.com/3/upload"
    method "POST"
    format "multipart"
    file-field "image"
    header "Authorization" "Client-ID YOUR_CLIENT_ID_HERE"
    path "data.link"
}
"#;

/// The whole configuration file.
#[derive(Debug)]
pub struct Config {
    /// The profile used when none is named on the command line.
    pub default: String,
    /// The clipboard command and its arguments, if any.
    pub clipboard: Option<Vec<String>>,
    pub profiles: Vec<Profile>,
    /// Expert mode: the safety checks are off.
    pub yolo: bool,
}

/// One upload backend.
#[derive(Debug)]
pub struct Profile {
    pub name: String,
    /// The endpoint; `{filename}` in it stands for the encoded filename.
    pub url: String,
    pub method: String,
    pub format: String,
    /// Where the URL is in the response: dot-separated keys, or `.`.
    pub path: String,
    pub strip_meta: Option<bool>,
    pub filename: Option<FilenameConfig>,
    pub file_field: String,
    pub headers: Vec<KeyValue>,
    pub fields: Vec<KeyValue>,
}

impl Profile {
    /// Whether metadata is stripped before uploading: unless the profile
    /// switches it off.
    pub fn strips_metadata(&self) -> (r: bool)
        ensures
            r == (self.strip_meta != Some(false)),
    {
        match self.strip_meta {
            Some(b) => b,
            None => true,
        }
    }
}

/// How filenames are made up.
#[derive(Debug)]
pub struct FilenameConfig {
    pub prefix: Option<String>,
    /// The number of random hexadecimal characters.
    pub random: Option<usize>,
    pub extension: Option<String>,
}

/// A header or a form field.
#[derive(Debug)]
pub struct KeyValue {
    pub key: String,
    pub value: String,
}

/// The permission bits that must be clear on the configuration file: no
/// access for group or others.
pub open spec fn config_mode_is_private(mode: u32) -> bool {
    mode & 0o077 == 0
}

/// A configuration file passes exactly when none of the six low permission
/// bits (read, write, execute for group and for others) is set: mode 0600
/// passes, 0640 and 0604 do not.
pub proof fn lemma_config_mode(mode: u32)
    ensures
        config_mode_is_private(mode) <==> mode % 64 == 0,
{
    assert((mode & 0o077 == 0) <==> mode % 64 == 0) by (bit_vector);
}

/// Refuses a configuration file that group or others may access.
pub fn check_config_permissions(mode: u32, path: String) -> (res: Result<(), SpoutError>)
    ensures
        config_mode_is_private(mode) ==> res is Ok,
        !config_mode_is_private(mode) ==> (res matches Err(SpoutError::InsecureConfig(p)) && p@
            == path@),
{
    if mode & 0o077 != 0 {
        return Err(SpoutError::InsecureConfig(path));
    }
    Ok(())
}

/// The profile named `target`: the first one with that name.
pub open spec fn profile_index(profiles: Seq<Profile>, target: Seq<char>) -> Option<int>
    decreases profiles.len(),
{
    if profiles.len() == 0 {
        None
    } else if profiles[0].name@ == target {
        Some(0)
    } else {
        match profile_index(profiles.drop_first(), target) {
            Some(i) => Some(i + 1),
            None => None,
        }
    }
}

/// The profile found for a name is the first one that has that name, and
/// none is found only when no profile has it.
pub proof fn lemma_profile_index_is_first(profiles: Seq<Profile>, target: Seq<char>)
    ensures
        profile_index(profiles, target) matches Some(i) ==> {
            &&& 0 <= i < profiles.len()
            &&& profiles[i].name@ == target
            &&& forall|j: int| 0 <= j < i ==> (#[trigger] profiles[j]).name@ != target
        },
        profile_index(profiles, target) is None ==> forall|j: int|
            0 <= j < profiles.len() ==> (#[trigger] profiles[j]).name@ != target,
    decreases profiles.len(),
{
    if profiles.len() > 0 {
        let rest = profiles.drop_first();
        lemma_profile_index_is_first(rest, target);
        assert forall|j: int| 1 <= j < profiles.len() implies (#[trigger] profiles[j]).name@
            == rest[j - 1].name@ by {}
    }
}

/// The profile name asked for, or else the default.
pub open spec fn requested_target(requested: Option<String>, default: String) -> Seq<char> {
    match requested {
        Some(r) => r@,
        None => default@,
    }
}

fn same_text(a: &String, b: &String) -> (r: bool)
    ensures
        r == (a@ == b@),
{
    a.eq(b)
}

/// The position of the profile to use: the one named on the command line,
/// or else the configured default.
pub fn select_profile(config: &Config, requested: Option<String>) -> (res: Result<usize, SpoutError>)
    ensures
        ({
            let target = requested_target(requested, config.default);
            match profile_index(config.profiles@, target) {
                Some(i) => res == Ok::<usize, SpoutError>(i as usize),
                None => res matches Err(SpoutError::ProfileNotFound(t)) && t@ == target,
            }
        }),
{
    let ghost want = requested_target(requested, config.default);
    let target = match requested {
        Some(r) => r,
        None => config.default.clone(),
    };
    let ghost t = target@;
    assert(t == want);
    let mut i: usize = 0;
    assert(config.profiles@.subrange(0, config.profiles@.len() as int) =~= config.profiles@);
    while i < config.profiles.len()
        invariant
            i <= config.profiles@.len(),
            target@ == t,
            t == want,
            want == requested_target(requested, config.default),
            profile_index(config.profiles@, t) == match profile_index(
                config.profiles@.subrange(i as int, config.profiles@.len() as int),
                t,
            ) {
                Some(k) => Some(k + i),
                None => None,
            },
        decreases config.profiles@.len() - i,
    {
        let ghost rest = config.profiles@.subrange(i as int, config.profiles@.len() as int);
        assert(rest.drop_first() =~= config.profiles@.subrange(i + 1, config.profiles@.len() as int));
        assert(rest[0] == config.profiles@[i as int]);
        if same_text(&config.profiles[i].name, &target) {
            return Ok(i);
        }
        i += 1;
    }
    Err(SpoutError::ProfileNotFound(target))
}

} // verus!
