use crate::drivers::paths::{chars_of, text_views};
use vstd::prelude::*;
use vstd::string::{StrSliceExecFns, StringExecFns};

verus! {

/// The fields of a text: what stands between the occurrences of a separator. A text with
/// `n` separators has `n + 1` fields, some of which may be empty.
pub open spec fn fields(text: Seq<char>, separator: char) -> Seq<Seq<char>>
    decreases text.len(),
{
    if text.len() == 0 {
        seq![Seq::<char>::empty()]
    } else {
        let before = fields(text.drop_last(), separator);
        if text.last() == separator {
            before.push(Seq::<char>::empty())
        } else {
            before.update(before.len() - 1, before.last().push(text.last()))
        }
    }
}

/// A text always has at least one field.
pub proof fn lemma_fields_nonempty(text: Seq<char>, separator: char)
    ensures
        fields(text, separator).len() >= 1,
    decreases text.len(),
{
    if text.len() > 0 {
        lemma_fields_nonempty(text.drop_last(), separator);
    }
}

/// Splits a text into its fields.
pub fn split_fields(text: &str, separator: char) -> (r: Vec<String>)
    ensures
        text_views(r@) == fields(text@, separator),
{
    let chars = chars_of(text);
    let n = chars.len();
    let mut done: Vec<String> = Vec::new();
    let mut start: usize = 0;
    let mut k: usize = 0;
    assert(text@.take(0) =~= Seq::<char>::empty());
    assert(text_views(done@).push(text@.subrange(0, 0)) =~= seq![Seq::<char>::empty()]);
    while k < n
        invariant
            0 <= start <= k <= n,
            n == chars.len(),
            chars@ == text@,
            fields(text@.take(k as int), separator) == text_views(done@).push(
                text@.subrange(start as int, k as int),
            ),
        decreases n - k,
    {
        let ghost before = text_views(done@);
        proof {
            assert(text@.take(k + 1).drop_last() =~= text@.take(k as int));
            assert(text@.take(k + 1).last() == chars@[k as int]);
        }
        let ghost piece = text@.subrange(start as int, k as int);
        if chars[k] == separator {
            done.push(String::from_str(text.substring_char(start, k)));
            start = k + 1;
            proof {
                assert(text_views(done@) =~= before.push(piece));
                assert(text@.subrange(k + 1, k + 1) =~= Seq::<char>::empty());
            }
        } else {
            proof {
                assert(text@.subrange(start as int, k + 1) =~= piece.push(chars@[k as int]));
                assert(before.push(piece).update(before.len() as int, piece.push(chars@[k as int]))
                    =~= before.push(piece.push(chars@[k as int])));
            }
        }
        k += 1;
    }
    assert(text@.take(n as int) =~= text@);
    let ghost before = text_views(done@);
    done.push(String::from_str(text.substring_char(start, n)));
    assert(text_views(done@) =~= before.push(text@.subrange(start as int, n as int)));
    done
}

/// Where a tree is to be crawled, as one command line argument names it.
#[derive(Debug, Clone, PartialEq, Eq)]
pub enum DriverArg {
    /// A directory of the local filesystem.
    Fs { path: String },
    /// A directory on a remote host, with the account and the key files to log in with.
    Sftp {
        username: String,
        address: String,
        pub_key_path: String,
        priv_key_path: String,
        path: String,
    },
}

/// The mathematical value of a [`DriverArg`].
pub enum DriverArgView {
    Fs { path: Seq<char> },
    Sftp {
        username: Seq<char>,
        address: Seq<char>,
        pub_key_path: Seq<char>,
        priv_key_path: Seq<char>,
        path: Seq<char>,
    },
}

impl View for DriverArg {
    type V = DriverArgView;

    open spec fn view(&self) -> DriverArgView {
        match *self {
            DriverArg::Fs { path } => DriverArgView::Fs { path: path@ },
            DriverArg::Sftp { username, address, pub_key_path, priv_key_path, path } => {
                DriverArgView::Sftp {
                    username: username@,
                    address: address@,
                    pub_key_path: pub_key_path@,
                    priv_key_path: priv_key_path@,
                    path: path@,
                }
            },
        }
    }
}

/// What is wrong with an argument that names a remote tree.
#[derive(Debug, Clone, Copy, PartialEq, Eq, Structural)]
pub enum DriverArgError {
    /// No `@` separates an address from the user name.
    MissingAddress,
    /// More than one `@` stands in the login.
    TooManyAts,
    /// The path of the public key file is missing.
    MissingPublicKey,
    /// The path of the private key file is missing.
    MissingPrivateKey,
    /// The directory after the key files is missing.
    MissingDirectory,
    /// More fields follow the directory.
    TooManySeparators,
}

/// The mark at the front of an argument that names a remote tree.
pub open spec fn sftp_mark() -> Seq<char> {
    seq!['s', 'f', 't', 'p', ':']
}

/// What an argument names. One that starts with `sftp:` names a remote tree, and what
/// follows the mark must have four fields between `|`: a login of the form `user@address`,
/// the paths of the public and the private key file, and the directory. Any other
/// argument is a directory of the local filesystem.
pub open spec fn parsed_arg(arg: Seq<char>) -> Result<DriverArgView, DriverArgError> {
    if !sftp_mark().is_prefix_of(arg) {
        Ok(DriverArgView::Fs { path: arg })
    } else {
        let parts = fields(arg.skip(5), '|');
        let login = fields(parts[0], '@');
        if login.len() < 2 {
            Err(DriverArgError::MissingAddress)
        } else if login.len() > 2 {
            Err(DriverArgError::TooManyAts)
        } else if parts.len() < 2 {
            Err(DriverArgError::MissingPublicKey)
        } else if parts.len() < 3 {
            Err(DriverArgError::MissingPrivateKey)
        } else if parts.len() < 4 {
            Err(DriverArgError::MissingDirectory)
        } else if parts.len() > 4 {
            Err(DriverArgError::TooManySeparators)
        } else {
            Ok(
                DriverArgView::Sftp {
                    username: login[0],
                    address: login[1],
                    pub_key_path: parts[1],
                    priv_key_path: parts[2],
                    path: parts[3],
                },
            )
        }
    }
}

/// The value of what reading an argument returned.
pub open spec fn arg_outcome(r: Result<DriverArg, DriverArgError>) -> Result<
    DriverArgView,
    DriverArgError,
> {
    match r {
        Ok(arg) => Ok(arg@),
        Err(e) => Err(e),
    }
}

/// Whether a text starts with the mark of a remote tree.
fn has_sftp_mark(chars: &Vec<char>) -> (r: bool)
    ensures
        r == sftp_mark().is_prefix_of(chars@),
{
    if chars.len() < 5 {
        return false;
    }
    let r = chars[0] == 's' && chars[1] == 'f' && chars[2] == 't' && chars[3] == 'p' && chars[4]
        == ':';
    proof {
        let head = chars@.subrange(0, 5);
        if r {
            assert(head =~= sftp_mark());
        } else if sftp_mark().is_prefix_of(chars@) {
            assert(head[0] == 's' && head[1] == 'f' && head[2] == 't' && head[3] == 'p' && head[4]
                == ':');
        }
    }
    r
}

/// Reads one command line argument that names a tree.
pub fn driver_from_arg(arg: &str) -> (r: Result<DriverArg, DriverArgError>)
    ensures
        arg_outcome(r) == parsed_arg(arg@),
{
    let chars = chars_of(arg);
    if !has_sftp_mark(&chars) {
        return Ok(DriverArg::Fs { path: String::from_str(arg) });
    }
    let rest = arg.substring_char(5, chars.len());
    assert(rest@ =~= arg@.skip(5));
    let parts = split_fields(rest, '|');
    proof {
        lemma_fields_nonempty(rest@, '|');
        assert(text_views(parts@).len() == parts.len());
    }
    let login = split_fields(parts[0].as_str(), '@');
    assert(text_views(parts@)[0] == parts@[0]@);
    assert(text_views(login@).len() == login.len());
    if login.len() < 2 {
        return Err(DriverArgError::MissingAddress);
    }
    if login.len() > 2 {
        return Err(DriverArgError::TooManyAts);
    }
    if parts.len() < 2 {
        return Err(DriverArgError::MissingPublicKey);
    }
    if parts.len() < 3 {
        return Err(DriverArgError::MissingPrivateKey);
    }
    if parts.len() < 4 {
        return Err(DriverArgError::MissingDirectory);
    }
    if parts.len() > 4 {
        return Err(DriverArgError::TooManySeparators);
    }
    proof {
        assert(text_views(login@)[0] == login@[0]@ && text_views(login@)[1] == login@[1]@);
        assert(text_views(parts@)[1] == parts@[1]@ && text_views(parts@)[2] == parts@[2]@
            && text_views(parts@)[3] == parts@[3]@);
    }
    Ok(
        DriverArg::Sftp {
            username: login[0].clone(),
            address: login[1].clone(),
            pub_key_path: parts[1].clone(),
            priv_key_path: parts[2].clone(),
            path: parts[3].clone(),
        },
    )
}

} // verus!
