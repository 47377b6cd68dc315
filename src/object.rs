//! The object model: commits, trees and blobs, their digests and the lines
//! through which a tree or blob is listed in its parent.
use vstd::prelude::*;
use vstd::string::StringExecFns;
use crate::digest::{sha1_digest, sha1_hex};
use crate::error::Error;
use crate::paths::{BLOB_DIR, TREE_DIR};
use crate::archive::{gunzip_of, gz_header_of, gzip, header_field, header_safe};
use crate::encoding::{decimal, decimal_string};
use crate::text::{join, sort_lines, text_order, views};
use vstd::utf8::encode_utf8;

verus! {

broadcast use vstd::string::group_string_axioms;

/// A content-addressed object.
#[allow(inconsistent_fields)]
pub enum Object {
    /// The root of a snapshot: the listing of the working directory, and the
    /// properties (parent digest, author, timestamp, message) folded into its
    /// digest after the listing.
    Commit {
        path: Vec<String>,
        content: Vec<String>,
        properties: Vec<String>,
        message: String,
        timestamp: u64,
        digest: String,
    },
    /// A directory: the listing lines of its entries.
    Tree { path: Vec<String>, content: Vec<String>, digest: String },
    /// A file: its text.
    Blob { path: Vec<String>, content: String, digest: String },
}

/// The listing line of an entry: kind, digest and name, separated by tabs.
pub open spec fn line_of(kind: Seq<char>, digest: Seq<char>, name: Seq<char>) -> Seq<char> {
    kind + seq!['\t'] + digest + seq!['\t'] + name
}

/// Listing lines in ascending lexicographic order.
pub open spec fn sorted_lines(lines: Seq<Seq<char>>) -> Seq<Seq<char>> {
    lines.sort_by(text_order())
}

/// The digest of a tree with the given listing lines, in any order.
pub open spec fn tree_digest(lines: Seq<Seq<char>>) -> Seq<char> {
    sha1_hex(sorted_lines(lines).flatten())
}

/// The digest of a commit: its listing lines in order, then its properties.
pub open spec fn commit_digest(lines: Seq<Seq<char>>, properties: Seq<Seq<char>>) -> Seq<char> {
    sha1_hex(sorted_lines(lines).flatten() + properties.flatten())
}

/// The digest of a blob with the given text.
pub open spec fn blob_digest(text: Seq<char>) -> Seq<char> {
    sha1_hex(text)
}

impl Object {
    pub open spec fn is_commit(&self) -> bool {
        self is Commit
    }

    pub open spec fn spec_path(&self) -> Seq<Seq<char>> {
        match self {
            Object::Commit { path, .. } => views(path@),
            Object::Tree { path, .. } => views(path@),
            Object::Blob { path, .. } => views(path@),
        }
    }

    pub open spec fn spec_digest(&self) -> Seq<char> {
        match self {
            Object::Commit { digest, .. } => digest@,
            Object::Tree { digest, .. } => digest@,
            Object::Blob { digest, .. } => digest@,
        }
    }

    /// The listing lines of a commit or tree; a blob lists nothing.
    pub open spec fn lines(&self) -> Seq<Seq<char>> {
        match self {
            Object::Commit { content, .. } => views(content@),
            Object::Tree { content, .. } => views(content@),
            Object::Blob { .. } => Seq::empty(),
        }
    }

    /// The file name of a tree or blob: the last component of its path.
    pub open spec fn name(&self) -> Seq<char> {
        self.spec_path().last()
    }

    /// The kind word that starts the listing line of a tree or blob.
    pub open spec fn kind_word(&self) -> Seq<char> {
        match self {
            Object::Commit { .. } => crate::paths::COMMITS_DIR@,
            Object::Tree { .. } => TREE_DIR@,
            Object::Blob { .. } => BLOB_DIR@,
        }
    }

    /// The digest that the current content of the object determines.
    pub open spec fn expected_digest(&self) -> Seq<char> {
        match self {
            Object::Commit { content, properties, .. } => commit_digest(
                views(content@),
                views(properties@),
            ),
            Object::Tree { content, .. } => tree_digest(views(content@)),
            Object::Blob { content, .. } => blob_digest(content@),
        }
    }

    /// `new` is `old` with its listing sorted and its digest computed; all else
    /// is kept.
    pub open spec fn digest_updated(old: Object, new: Object) -> bool {
        &&& new.spec_digest() == old.expected_digest()
        &&& match (old, new) {
            (
                Object::Commit { path: p0, content: c0, properties: q0, message: m0, timestamp: t0, .. },
                Object::Commit { path: p1, content: c1, properties: q1, message: m1, timestamp: t1, .. },
            ) => p0 == p1 && views(c1@) == sorted_lines(views(c0@)) && q0 == q1 && m0 == m1 && t0
                == t1,
            (
                Object::Tree { path: p0, content: c0, .. },
                Object::Tree { path: p1, content: c1, .. },
            ) => p0 == p1 && views(c1@) == sorted_lines(views(c0@)),
            (
                Object::Blob { path: p0, content: c0, .. },
                Object::Blob { path: p1, content: c1, .. },
            ) => p0 == p1 && c0 == c1,
            _ => false,
        }
    }

    /// `new` is `old` with `added` at the end of its listing; a blob is
    /// unchanged.
    pub open spec fn lines_added(old: Object, new: Object, added: Seq<Seq<char>>) -> bool {
        match (old, new) {
            (
                Object::Commit { path: p0, content: c0, properties: q0, message: m0, timestamp: t0, digest: d0 },
                Object::Commit { path: p1, content: c1, properties: q1, message: m1, timestamp: t1, digest: d1 },
            ) => p0 == p1 && views(c1@) == views(c0@) + added && q0 == q1 && m0 == m1 && t0
                == t1 && d0 == d1,
            (
                Object::Tree { path: p0, content: c0, digest: d0 },
                Object::Tree { path: p1, content: c1, digest: d1 },
            ) => p0 == p1 && views(c1@) == views(c0@) + added && d0 == d1,
            (Object::Blob { .. }, _) => new == old,
            _ => false,
        }
    }

    /// Adding two runs of lines one after the other adds them together.
    pub proof fn lemma_lines_added_trans(
        a: Object,
        b: Object,
        c: Object,
        x: Seq<Seq<char>>,
        y: Seq<Seq<char>>,
    )
        requires
            !(a is Blob),
            Object::lines_added(a, b, x),
            Object::lines_added(b, c, y),
        ensures
            Object::lines_added(a, c, x + y),
    {
        match (a, b, c) {
            (Object::Commit { content: ca, .. }, Object::Commit { content: cb, .. }, Object::Commit { content: cc, .. }) => {
                assert(views(cc@) =~= views(ca@) + (x + y));
            },
            (Object::Tree { content: ca, .. }, Object::Tree { content: cb, .. }, Object::Tree { content: cc, .. }) => {
                assert(views(cc@) =~= views(ca@) + (x + y));
            },
            _ => {},
        }
    }

    /// A commit object with an empty digest.
    pub fn new_commit(
        path: Vec<String>,
        content: Vec<String>,
        properties: Vec<String>,
        message: String,
        timestamp: u64,
    ) -> (r: Object)
        ensures
            r matches Object::Commit { path: p, content: c, properties: q, message: m, timestamp: t, .. }
                && p == path && c == content && q == properties && m == message && t == timestamp,
            r.spec_digest().len() == 0,
    {
        Object::Commit { path, content, properties, message, timestamp, digest: String::new() }
    }

    /// The object with its digest set to `digest`, and all else kept.
    pub fn with_digest(self, digest: String) -> (r: Object)
        ensures
            match (self, r) {
                (
                    Object::Commit { path: p0, content: c0, properties: q0, message: m0, timestamp: t0, .. },
                    Object::Commit { path: p1, content: c1, properties: q1, message: m1, timestamp: t1, digest: d1 },
                ) => p0 == p1 && c0 == c1 && q0 == q1 && m0 == m1 && t0 == t1 && d1 == digest,
                (Object::Tree { path: p0, content: c0, .. }, Object::Tree { path: p1, content: c1, digest: d1 }) =>
                    p0 == p1 && c0 == c1 && d1 == digest,
                (Object::Blob { path: p0, content: c0, .. }, Object::Blob { path: p1, content: c1, digest: d1 }) =>
                    p0 == p1 && c0 == c1 && d1 == digest,
                _ => false,
            },
    {
        match self {
            Object::Commit { path, content, properties, message, timestamp, .. } => Object::Commit {
                path,
                content,
                properties,
                message,
                timestamp,
                digest,
            },
            Object::Tree { path, content, .. } => Object::Tree { path, content, digest },
            Object::Blob { path, content, .. } => Object::Blob { path, content, digest },
        }
    }

    /// A tree object.
    pub fn new_tree(path: Vec<String>, content: Vec<String>, digest: String) -> (r: Object)
        ensures
            r == (Object::Tree { path, content, digest }),
    {
        Object::Tree { path, content, digest }
    }

    /// A blob object.
    pub fn new_blob(path: Vec<String>, content: String, digest: String) -> (r: Object)
        ensures
            r == (Object::Blob { path, content, digest }),
    {
        Object::Blob { path, content, digest }
    }

    /// The object's path components.
    pub fn path(&self) -> (r: &Vec<String>)
        ensures
            views(r@) == self.spec_path(),
    {
        match self {
            Object::Commit { path, .. } => path,
            Object::Tree { path, .. } => path,
            Object::Blob { path, .. } => path,
        }
    }

    /// The object's digest; empty until it is computed.
    pub fn digest(&self) -> (r: &str)
        ensures
            r@ == self.spec_digest(),
    {
        match self {
            Object::Commit { digest, .. } => digest.as_str(),
            Object::Tree { digest, .. } => digest.as_str(),
            Object::Blob { digest, .. } => digest.as_str(),
        }
    }

    /// Sorts the listing of a commit or tree, then computes the digest: of the
    /// sorted lines for a tree, of the sorted lines and then the properties for
    /// a commit, of the text for a blob.
    pub fn update_digest(&mut self) -> (r: Result<(), Error>)
        ensures
            r is Ok,
            Object::digest_updated(*old(self), *final(self)),
            crate::digest::is_digest(final(self).spec_digest()),
    {
        match self {
            Object::Commit { content, properties, digest, .. } => {
                let sorted = sort_lines(content);
                let mut text = String::new();
                append_lines(&mut text, &sorted);
                append_lines(&mut text, properties);
                *digest = sha1_digest(text.as_str());
                *content = sorted;
            },
            Object::Tree { content, digest, .. } => {
                let sorted = sort_lines(content);
                let mut text = String::new();
                append_lines(&mut text, &sorted);
                *digest = sha1_digest(text.as_str());
                *content = sorted;
            },
            Object::Blob { content, digest, .. } => {
                *digest = sha1_digest(content.as_str());
            },
        }
        Ok(())
    }

    /// Adds a listing line to a commit or tree; a blob's content is its text,
    /// so a blob is left as it is.
    pub fn append_content(&mut self, line: String)
        ensures
            Object::lines_added(*old(self), *final(self), seq![line@]),
    {
        match self {
            Object::Commit { content, .. } => {
                let ghost before = views(content@);
                content.push(line);
                proof {
                    assert(views(content@) =~= before + seq![line@]);
                }
            },
            Object::Tree { content, .. } => {
                let ghost before = views(content@);
                content.push(line);
                proof {
                    assert(views(content@) =~= before + seq![line@]);
                }
            },
            Object::Blob { .. } => {},
        }
    }

    /// The line that lists a tree or blob in its parent. A commit is never
    /// listed, and a line is never formed before the digest is computed or for
    /// a path without a file name.
    pub fn obj_content_line(&self) -> (r: Result<String, Error>)
        ensures
            (self is Commit || self.spec_digest().len() == 0 || self.spec_path().len() == 0) ==> r
                == Err::<String, Error>(Error::Unexpected),
            !(self is Commit || self.spec_digest().len() == 0 || self.spec_path().len() == 0) ==> (
            r matches Ok(line) && line@ == line_of(self.kind_word(), self.spec_digest(), self.name())),
    {
        let (kind, path, digest) = match self {
            Object::Commit { .. } => {
                return Err(Error::Unexpected);
            },
            Object::Tree { path, digest, .. } => (TREE_DIR, path, digest),
            Object::Blob { path, digest, .. } => (BLOB_DIR, path, digest),
        };
        if digest.as_str().is_empty() || path.len() == 0 {
            return Err(Error::Unexpected);
        }
        let mut line = kind.to_string();
        line.append("\t");
        line.append(digest.as_str());
        line.append("\t");
        line.append(path[path.len() - 1].as_str());
        proof {
            reveal_strlit("\t");
            assert(line@ =~= line_of(self.kind_word(), self.spec_digest(), self.name()));
        }
        Ok(line)
    }
}

/// Appends the lines one after another, with nothing between them.
pub fn append_lines(out: &mut String, lines: &Vec<String>)
    ensures
        final(out)@ == old(out)@ + views(lines@).flatten(),
{
    let mut i: usize = 0;
    while i < lines.len()
        invariant
            i <= lines.len(),
            out@ == old(out)@ + views(lines@).subrange(0, i as int).flatten(),
        decreases lines.len() - i,
    {
        let ghost pre = views(lines@).subrange(0, i as int);
        out.append(lines[i].as_str());
        proof {
            assert(views(lines@).subrange(0, i + 1) =~= pre.push(lines@[i as int]@));
            pre.lemma_flatten_push(lines@[i as int]@);
        }
        i = i + 1;
    }
    assert(views(lines@).subrange(0, lines.len() as int) =~= views(lines@));
}

/// The lines joined with a line break between each two of them.
pub fn join_lines(lines: &Vec<String>) -> (r: String)
    ensures
        r@ == join(views(lines@), '\n'),
{
    let mut out = String::new();
    let mut i: usize = 0;
    proof {
        reveal_strlit("\n");
    }
    while i < lines.len()
        invariant
            i <= lines.len(),
            out@ == join(views(lines@).subrange(0, i as int), '\n'),
        decreases lines.len() - i,
    {
        let ghost pre = views(lines@).subrange(0, i as int);
        let ghost next = views(lines@).subrange(0, i + 1);
        assert(next.drop_last() =~= pre);
        if i > 0 {
            out.append("\n");
        }
        out.append(lines[i].as_str());
        proof {
            reveal_strlit("\n");
            assert("\n"@ =~= seq!['\n']);
            if i == 0 {
                assert(out@ =~= join(next, '\n'));
            } else {
                assert(join(next, '\n') == join(pre, '\n') + seq!['\n'] + next.last());
                assert(out@ =~= join(next, '\n'));
            }
        }
        i = i + 1;
    }
    assert(views(lines@).subrange(0, lines.len() as int) =~= views(lines@));
    out
}

/// Whether `s` holds a zero character.
fn has_nul(s: &str) -> (r: bool)
    ensures
        r == !header_safe(s@),
{
    let chars = crate::text::chars_of(s);
    let mut i: usize = 0;
    while i < chars.len()
        invariant
            i <= chars.len(),
            chars@ == s@,
            forall|k: int| 0 <= k < i ==> chars@[k] != '\0',
        decreases chars.len() - i,
    {
        if chars[i] == '\0' {
            return true;
        }
        i = i + 1;
    }
    false
}

impl Object {
    /// The text that the archive of the object holds: the properties, a line
    /// break and the listing of a commit; the listing of a tree; the text of a
    /// blob. Lines are separated by line breaks.
    pub open spec fn archive_text(&self) -> Seq<char> {
        match self {
            Object::Commit { content, properties, .. } => join(views(properties@), '\n') + seq![
                '\n',
            ] + join(views(content@), '\n'),
            Object::Tree { content, .. } => join(views(content@), '\n'),
            Object::Blob { content, .. } => content@,
        }
    }

    /// The name that the archive header carries: the digest of a commit, the
    /// file name of a tree or blob.
    pub open spec fn header_name(&self) -> Seq<char> {
        match self {
            Object::Commit { digest, .. } => digest@,
            _ => self.name(),
        }
    }

    /// Whether the header fields of the archive can be written and read back:
    /// the name and the commit message hold no zero character and at most
    /// `u16::MAX` bytes, and a tree or blob has a file name.
    pub open spec fn archivable(&self) -> bool {
        &&& header_field(self.header_name())
        &&& (self is Commit ==> header_field(self->Commit_message@))
        &&& (!(self is Commit) ==> self.spec_path().len() > 0)
    }

    /// The comment that the archive header carries: the message of a commit,
    /// nothing for a tree or blob.
    pub open spec fn header_comment(&self) -> Seq<char> {
        match self {
            Object::Commit { message, .. } => message@,
            _ => Seq::empty(),
        }
    }

    /// The extra field that the archive header carries: the timestamp of a
    /// commit in decimal seconds, nothing for a tree or blob.
    pub open spec fn header_extra(&self) -> Seq<char> {
        match self {
            Object::Commit { timestamp, .. } => decimal(*timestamp as nat),
            _ => Seq::empty(),
        }
    }

    /// The compressed archive of the object. The name in its header is the
    /// digest of a commit or the file name of a tree or blob; a commit's header
    /// also carries its message and, as the extra field, its timestamp.
    pub fn save_object(&self) -> (r: Result<Vec<u8>, Error>)
        ensures
            r is Err <==> !self.archivable(),
            r is Err ==> r == Err::<Vec<u8>, Error>(Error::Unexpected),
            r matches Ok(bytes) ==> gunzip_of(bytes@) == Some(encode_utf8(self.archive_text())),
            r matches Ok(bytes) ==> gz_header_of(bytes@) == Some(
                (
                    Some(encode_utf8(self.header_name())),
                    Some(encode_utf8(self.header_comment())),
                    Some(encode_utf8(self.header_extra())),
                ),
            ),
    {
        let empty = String::new();
        let (name, comment, extra, text) = match self {
            Object::Commit { content, properties, message, timestamp, digest, .. } => {
                let mut text = join_lines(properties);
                text.append("\n");
                let listing = join_lines(content);
                text.append(listing.as_str());
                proof {
                    reveal_strlit("\n");
                    assert(text@ =~= self.archive_text());
                }
                proof {
                    crate::encoding::lemma_decimal_u64_len(*timestamp);
                }
                (digest, message, decimal_string(*timestamp), text)
            },
            Object::Tree { path, content, .. } => {
                if path.len() == 0 {
                    return Err(Error::Unexpected);
                }
                assert(empty@ =~= self.header_comment());
                (&path[path.len() - 1], &empty, String::new(), join_lines(content))
            },
            Object::Blob { path, content, .. } => {
                if path.len() == 0 {
                    return Err(Error::Unexpected);
                }
                assert(empty@ =~= self.header_comment());
                (&path[path.len() - 1], &empty, String::new(), content.clone())
            },
        };
        if has_nul(name.as_str()) || has_nul(comment.as_str()) || name.as_str().as_bytes().len()
            > 65535 || comment.as_str().as_bytes().len() > 65535 || crate::text::chars_of(
            extra.as_str(),
        ).len() > 16383 {
            return Err(Error::Unexpected);
        }
        assert(name@ == self.header_name());
        assert(comment@ == self.header_comment());
        assert(extra@ =~= self.header_extra());
        match gzip(name.as_str(), comment.as_str(), extra.as_str(), text.as_str()) {
            Some(bytes) => Ok(bytes),
            None => Err(Error::IoError),
        }
    }
}

} // verus!
