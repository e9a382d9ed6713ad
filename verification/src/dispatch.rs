//! Serving a request: which of the store's nodes it names, and what leaves
//! the process when a secret is revealed.

use vstd::prelude::*;
use crate::error::ShowError;

verus! {

/// A request: the name of a secret or a directory, relative to the store's
/// root (none for the root itself), and whether a secret goes to the
/// clipboard instead of the output.
#[derive(Debug, Clone, PartialEq, Eq)]
pub struct Show {
    pub input: Option<String>,
    pub clip: bool,
}

/// The store's configuration.
#[derive(Debug, Clone, PartialEq, Eq)]
pub struct Settings {
    pub dir: String,
    pub clip_time: u64,
    pub generated_length: usize,
    pub editor: String,
}

/// What the file system says of the two candidates of a request.
#[derive(Debug, Clone, Copy, PartialEq, Eq)]
pub struct Probe {
    /// The secret candidate exists.
    pub file_exists: bool,
    /// The secret candidate is a directory.
    pub file_is_dir: bool,
    /// The directory candidate is a directory.
    pub path_is_dir: bool,
}

/// What is to be done for a request.
#[derive(Debug, Clone, PartialEq, Eq)]
pub enum Step {
    /// Decrypt the secret in this file.
    Decrypt(String),
    /// Walk this directory and show its tree.
    Browse(String),
}

/// What becomes of a decrypted secret.
#[derive(Debug, Clone, PartialEq, Eq)]
pub enum Routed {
    /// This text goes to the output as it is.
    Print(String),
    /// The relay is to be started; the secret waits for it.
    Relay(String),
}

/// What is handed over once the relay runs.
#[derive(Debug, Clone, PartialEq, Eq)]
pub struct Handoff {
    /// What the relay gets on its input.
    pub payload: String,
    /// What goes to the output.
    pub message: String,
}

/// `name` below `dir`: a name that begins with a separator stands alone;
/// otherwise one separator stands between the two, unless `dir` is empty or
/// ends in one.
pub open spec fn joined(dir: Seq<char>, name: Seq<char>) -> Seq<char> {
    if name.len() > 0 && name[0] == '/' {
        name
    } else if dir.len() == 0 || dir.last() == '/' {
        dir + name
    } else {
        dir + "/"@ + name
    }
}

/// Where the secret `name` would be below `dir`: the name with the extension
/// of encrypted files.
pub open spec fn secret_path(dir: Seq<char>, name: Seq<char>) -> Seq<char> {
    joined(dir, name + ".gpg"@)
}

/// Where a directory of the requested name would be; the root where no name
/// is given.
pub open spec fn directory_candidate(dir: Seq<char>, input: Option<String>) -> Seq<char> {
    match input {
        Some(name) => joined(dir, name@),
        None => dir,
    }
}

/// Where a secret of the requested name would be; the root where no name is
/// given.
pub open spec fn secret_candidate(dir: Seq<char>, input: Option<String>) -> Seq<char> {
    match input {
        Some(name) => secret_path(dir, name@),
        None => dir,
    }
}

/// The request names a secret: its candidate exists and is no directory.
pub open spec fn names_secret(probe: Probe) -> bool {
    probe.file_exists && !probe.file_is_dir
}

/// The request names a directory: it names no secret, and its directory
/// candidate is a directory.
pub open spec fn names_directory(probe: Probe) -> bool {
    !names_secret(probe) && probe.path_is_dir
}

/// The name by which a request is spoken of: the requested name, or a
/// placeholder where the request is for the root.
pub open spec fn reported_name(input: Option<String>) -> Seq<char> {
    match input {
        Some(name) => name@,
        None => "File or folder"@,
    }
}

/// Where the first line of `text` ends: at its first line feed, or at its end.
pub open spec fn line_end(text: Seq<char>) -> int
    decreases text.len(),
{
    if text.len() == 0 || text[0] == '\n' {
        0
    } else {
        1 + line_end(text.drop_first())
    }
}

/// The first line of `text`, without its line feed and without a carriage
/// return before that line feed. An empty text has no first line.
pub open spec fn first_line_of(text: Seq<char>) -> Option<Seq<char>> {
    let end = line_end(text);
    if text.len() == 0 {
        None
    } else if 0 < end < text.len() && text[end - 1] == '\r' {
        Some(text.take(end - 1))
    } else {
        Some(text.take(end))
    }
}

/// The character of a decimal digit.
pub open spec fn digit_char(d: nat) -> char {
    if d == 0 {
        '0'
    } else if d == 1 {
        '1'
    } else if d == 2 {
        '2'
    } else if d == 3 {
        '3'
    } else if d == 4 {
        '4'
    } else if d == 5 {
        '5'
    } else if d == 6 {
        '6'
    } else if d == 7 {
        '7'
    } else if d == 8 {
        '8'
    } else {
        '9'
    }
}

/// The decimal digits of `n`, the most significant first.
pub open spec fn decimal_of(n: nat) -> Seq<char>
    decreases n,
{
    if n < 10 {
        seq![digit_char(n)]
    } else {
        decimal_of(n / 10).push(digit_char(n % 10))
    }
}

/// What is said once a secret is on its way to the clipboard.
pub open spec fn confirmation(name: Seq<char>, seconds: nat) -> Seq<char> {
    "Copied "@ + name + " to clipboard. Will clear in "@ + decimal_of(seconds) + " seconds.\n"@
}

/// `name` below `dir`.
pub fn join(dir: &str, name: &str) -> (path: String)
    ensures
        path@ == joined(dir@, name@),
{
    let n: usize = dir.unicode_len();
    if name.unicode_len() > 0 && name.get_char(0) == '/' {
        String::from_str(name)
    } else if n == 0 || dir.get_char(n - 1) == '/' {
        let mut path = String::from_str(dir);
        path.append(name);
        path
    } else {
        let mut path = String::from_str(dir);
        path.append("/");
        path.append(name);
        path
    }
}

/// The digit `d` as text.
fn digit_text(d: u64) -> (text: &'static str)
    requires
        d < 10,
    ensures
        text@ == seq![digit_char(d as nat)],
{
    proof {
        reveal_strlit("0");
        reveal_strlit("1");
        reveal_strlit("2");
        reveal_strlit("3");
        reveal_strlit("4");
        reveal_strlit("5");
        reveal_strlit("6");
        reveal_strlit("7");
        reveal_strlit("8");
        reveal_strlit("9");
    }
    let text: &'static str = if d == 0 {
        "0"
    } else if d == 1 {
        "1"
    } else if d == 2 {
        "2"
    } else if d == 3 {
        "3"
    } else if d == 4 {
        "4"
    } else if d == 5 {
        "5"
    } else if d == 6 {
        "6"
    } else if d == 7 {
        "7"
    } else if d == 8 {
        "8"
    } else {
        "9"
    };
    assert(text@ =~= seq![digit_char(d as nat)]);
    text
}

/// `n` in decimal digits.
pub fn decimal(n: u64) -> (text: String)
    ensures
        text@ == decimal_of(n as nat),
    decreases n,
{
    if n < 10 {
        String::from_str(digit_text(n))
    } else {
        let mut text = decimal(n / 10);
        text.append(digit_text(n % 10));
        assert(text@ =~= decimal_of(n as nat));
        text
    }
}

/// The first line of `text`.
pub fn first_line(text: &str) -> (line: Option<String>)
    ensures
        line is Some == first_line_of(text@) is Some,
        line is Some ==> line->0@ == first_line_of(text@)->0,
{
    let n: usize = text.unicode_len();
    if n == 0 {
        return None;
    }
    let mut end: usize = 0;
    proof {
        assert(text@.skip(0) =~= text@);
    }
    while end < n && text.get_char(end) != '\n'
        invariant
            end <= n,
            n == text@.len(),
            line_end(text@) == end + line_end(text@.skip(end as int)),
        decreases n - end,
    {
        proof {
            assert(text@.skip(end as int).drop_first() =~= text@.skip(end + 1));
        }
        end += 1;
    }
    if 0 < end && end < n && text.get_char(end - 1) == '\r' {
        Some(String::from_str(text.substring_char(0, end - 1)))
    } else {
        Some(String::from_str(text.substring_char(0, end)))
    }
}

impl Show {
    /// A request for `input` that goes to the output.
    pub fn new(input: Option<String>) -> (show: Show)
        ensures
            show.input == input,
            !show.clip,
    {
        Show { input, clip: false }
    }
}

/// The two places that a request may name: the directory candidate and the
/// secret candidate.
pub fn candidates(opts: &Show, settings: &Settings) -> (places: (String, String))
    ensures
        places.0@ == directory_candidate(settings.dir@, opts.input),
        places.1@ == secret_candidate(settings.dir@, opts.input),
{
    match &opts.input {
        Some(name) => {
            let mut with_ext = name.clone();
            with_ext.append(".gpg");
            (join(settings.dir.as_str(), name.as_str()), join(settings.dir.as_str(), with_ext.as_str()))
        },
        None => (settings.dir.clone(), settings.dir.clone()),
    }
}

/// Decides what a request is for. A secret comes before a directory of the
/// same name; where the request names neither, it fails and reports the name.
pub fn show(opts: &Show, settings: &Settings, probe: Probe) -> (res: Result<Step, ShowError>)
    ensures
        names_secret(probe) ==> (res matches Ok(Step::Decrypt(file)) && file@ == secret_candidate(
            settings.dir@,
            opts.input,
        )),
        names_directory(probe) ==> (res matches Ok(Step::Browse(path)) && path@
            == directory_candidate(settings.dir@, opts.input)),
        !names_secret(probe) && !names_directory(probe) ==> (res matches Err(
            ShowError::NotFound { name },
        ) && name@ == reported_name(opts.input)),
{
    if probe.file_exists && !probe.file_is_dir {
        let (_, file) = candidates(opts, settings);
        Ok(Step::Decrypt(file))
    } else if probe.path_is_dir {
        let (path, _) = candidates(opts, settings);
        Ok(Step::Browse(path))
    } else {
        let name: String = match &opts.input {
            Some(name) => name.clone(),
            None => String::from_str("File or folder"),
        };
        Err(ShowError::NotFound { name })
    }
}

/// What becomes of the outcome of decryption: in print mode the plaintext as
/// it is; in clipboard mode it waits for the relay. A failed decryption fails
/// the request.
pub fn route(opts: &Show, decrypted: Option<String>) -> (res: Result<Routed, ShowError>)
    ensures
        decrypted is None ==> res == Err::<Routed, ShowError>(ShowError::DecryptionFailed),
        decrypted is Some && !opts.clip ==> res == Ok::<Routed, ShowError>(
            Routed::Print(decrypted->0),
        ),
        decrypted is Some && opts.clip ==> res == Ok::<Routed, ShowError>(
            Routed::Relay(decrypted->0),
        ),
{
    match decrypted {
        None => Err(ShowError::DecryptionFailed),
        Some(text) => if opts.clip {
            Ok(Routed::Relay(text))
        } else {
            Ok(Routed::Print(text))
        },
    }
}

/// What the relay gets and what is said, once the relay was started:
/// the first line of the secret and nothing behind it. Fails where the relay
/// takes no input, and then where the secret has no first line. A request
/// for the root, which has no name, is spoken of by the placeholder.
pub fn hand_off(opts: &Show, settings: &Settings, relay_ready: bool, secret: &str) -> (res: Result<
    Handoff,
    ShowError,
>)
    ensures
        !relay_ready ==> res == Err::<Handoff, ShowError>(ShowError::ClipboardRelayUnavailable),
        relay_ready && first_line_of(secret@) is None ==> res == Err::<Handoff, ShowError>(
            ShowError::EmptySecretContent,
        ),
        relay_ready && first_line_of(secret@) is Some ==> (res matches Ok(h) && h.payload@
            == first_line_of(secret@)->0 && h.message@ == confirmation(
            reported_name(opts.input),
            settings.clip_time as nat,
        )),
{
    if !relay_ready {
        return Err(ShowError::ClipboardRelayUnavailable);
    }
    match first_line(secret) {
        None => Err(ShowError::EmptySecretContent),
        Some(payload) => {
            let mut message = String::from_str("Copied ");
            match &opts.input {
                Some(name) => message.append(name.as_str()),
                None => message.append("File or folder"),
            }
            message.append(" to clipboard. Will clear in ");
            message.append(decimal(settings.clip_time).as_str());
            message.append(" seconds.\n");
            Ok(Handoff { payload, message })
        },
    }
}

/// A name that ends in a separator has another secret candidate than the
/// name without it: a secret beside a directory is not the secret candidate
/// of the request for the directory's content.
pub proof fn lemma_separator_changes_candidate(dir: Seq<char>, name: Seq<char>)
    requires
        name.len() > 0,
    ensures
        secret_path(dir, name.push('/')) != secret_path(dir, name),
{
    let with = name.push('/') + ".gpg"@;
    let without = name + ".gpg"@;
    assert(with.len() == without.len() + 1);
    assert(with[0] == name[0] && without[0] == name[0]);
    assert(joined(dir, with).len() == joined(dir, without).len() + 1);
}

/// The first line of a text holds no line feed and is the beginning of the
/// text: nothing behind the first line is part of it.
pub proof fn lemma_first_line_only(text: Seq<char>)
    requires
        first_line_of(text) is Some,
    ensures
        first_line_of(text)->0.len() <= line_end(text) <= text.len(),
        first_line_of(text)->0 == text.take(first_line_of(text)->0.len() as int),
        forall|i: int|
            0 <= i < first_line_of(text)->0.len() ==> #[trigger] first_line_of(text)->0[i] != '\n',
        line_end(text) < text.len() ==> text[line_end(text)] == '\n',
{
    lemma_line_end(text);
}

/// The first line feed of a text stands where its first line ends.
pub proof fn lemma_line_end(text: Seq<char>)
    ensures
        0 <= line_end(text) <= text.len(),
        forall|i: int| 0 <= i < line_end(text) ==> #[trigger] text[i] != '\n',
        line_end(text) < text.len() ==> text[line_end(text)] == '\n',
    decreases text.len(),
{
    if text.len() > 0 && text[0] != '\n' {
        let rest = text.drop_first();
        lemma_line_end(rest);
        assert forall|i: int| 0 <= i < line_end(text) implies #[trigger] text[i] != '\n' by {
            if i > 0 {
                assert(text[i] == rest[i - 1]);
            }
        }
    }
}

} // verus!
