//! A build-time asset bundler: files are identified by the SHA-256 digest of
//! their content, deduplicated by that digest, and served from a manifest that
//! is looked up by the digest's hexadecimal text.
//!
//! The modules follow the way of a file through a build: [`digest`] hashes
//! content, [`cache`] remembers what was hashed, [`manifest`] collects the
//! files found under a directory and keeps one per digest. What ends up in
//! the finished program is the [`Manifest`] of this module: a flat table of
//! [`File`]s, found by digest.

use vstd::prelude::*;

use crate::digest::{
    ascii_text, hex_encode, lemma_ascii_is_utf8, lemma_hex_decode_encode, lemma_hex_keeps_order,
};
use crate::lex::{compare_text, increasing, precedes, text_bytes, Rank};

pub mod cache;
pub mod digest;
pub mod lex;
pub mod manifest;

verus! {

/// One bundled file.
#[derive(Debug, Clone, Copy, PartialEq, Eq, PartialOrd, Ord, Hash)]
pub struct File<'a> {
    /// The content of the file.
    pub bytes: &'a [u8],
    /// The name that the file had where it was found.
    pub name: &'a str,
    /// The digest of the content, as hexadecimal text.
    pub digest: &'a str,
    /// The media type guessed for the file.
    pub mime: &'a str,
}

impl<'a> File<'a> {
    /// The raw content of the file.
    pub fn bytes(&self) -> (bytes: &'a [u8])
        ensures
            bytes == self.bytes,
    {
        self.bytes
    }

    /// The name of the file. Where several files had the same content, it is
    /// the name of the one that was kept for them.
    pub fn name(&self) -> (name: &'a str)
        ensures
            name == self.name,
    {
        self.name
    }

    /// The digest of the file's content, as hexadecimal text.
    pub fn digest(&self) -> (digest: &'a str)
        ensures
            digest == self.digest,
    {
        self.digest
    }

    /// The media type guessed for the file.
    pub fn mime(&self) -> (mime: &'a str)
        ensures
            mime == self.mime,
    {
        self.mime
    }
}

/// The files are in strictly increasing order of their digests' text, so no
/// two of them have the same digest.
pub open spec fn keyed(files: Seq<File<'_>>) -> bool {
    forall|i: int, j: int|
        0 <= i < j < files.len() ==> precedes(
            text_bytes((#[trigger] files[i]).digest@),
            text_bytes((#[trigger] files[j]).digest@),
        )
}

/// A flat table of bundled files, each found by the digest of its content.
/// Directories are flattened, and files with the same content are one file.
#[derive(Debug, Clone, Copy, PartialEq, Eq, PartialOrd, Ord, Hash)]
pub struct Manifest<'a> {
    files: &'a [File<'a>],
}

impl<'a> View for Manifest<'a> {
    type V = Seq<File<'a>>;

    closed spec fn view(&self) -> Seq<File<'a>> {
        self.files@
    }
}

impl<'a> Manifest<'a> {
    #[verifier::type_invariant]
    spec fn in_order(self) -> bool {
        keyed(self.files@)
    }

    /// The manifest of `files`, which have to be in strictly increasing order
    /// of their digests: otherwise there is none.
    pub fn new(files: &'a [File<'a>]) -> (made: Option<Manifest<'a>>)
        ensures
            made is Some <==> keyed(files@),
            made matches Some(manifest) ==> manifest@ == files@,
    {
        let mut i: usize = 1;
        while i < files.len()
            invariant
                1 <= i,
                forall|k: int|
                    1 <= k < i && k < files.len() ==> precedes(
                        text_bytes((#[trigger] files@[k - 1]).digest@),
                        text_bytes(files@[k].digest@),
                    ),
            decreases files.len() - i,
        {
            match compare_text(files[i - 1].digest, files[i].digest) {
                Rank::Before => {},
                _ => {
                    assert(!keyed(files@));
                    return None;
                },
            }
            i += 1;
        }
        proof {
            lemma_neighbours_suffice(files@);
        }
        Some(Manifest { files })
    }

    /// All the files of the manifest, in the order of their digests.
    pub fn files(&self) -> (files: &'a [File<'a>])
        ensures
            files@ == self@,
            keyed(files@),
    {
        proof {
            use_type_invariant(self);
        }
        self.files
    }

    /// The file whose content has the digest `digest`, given as hexadecimal
    /// text. Every file of the manifest is found under its own digest, and
    /// under a text that is no file's digest nothing is found.
    pub fn get(&self, digest: &str) -> (found: Option<&'a File<'a>>)
        ensures
            forall|i: int|
                0 <= i < self@.len() && (#[trigger] self@[i]).digest@ == digest@ ==> found
                    == Some(&self@[i]),
            (forall|i: int| 0 <= i < self@.len() ==> (#[trigger] self@[i]).digest@ != digest@)
                ==> found is None,
    {
        proof {
            use_type_invariant(self);
        }
        let files = self.files;
        let ghost key = text_bytes(digest@);
        let mut low: usize = 0;
        let mut high: usize = files.len();
        while low < high
            invariant
                low <= high <= files.len(),
                files@ == self@,
                keyed(files@),
                key == text_bytes(digest@),
                forall|i: int|
                    0 <= i < low ==> precedes(text_bytes((#[trigger] files@[i]).digest@), key),
                forall|i: int|
                    high <= i < files.len() ==> precedes(
                        key,
                        text_bytes((#[trigger] files@[i]).digest@),
                    ),
            decreases high - low,
        {
            let middle = low + (high - low) / 2;
            match compare_text(files[middle].digest, digest) {
                Rank::Same => {
                    proof {
                        lemma_found_once(files@, middle as int);
                    }
                    return Some(&files[middle]);
                },
                Rank::Before => {
                    proof {
                        assert forall|i: int| 0 <= i < middle + 1 implies precedes(
                            text_bytes((#[trigger] files@[i]).digest@),
                            key,
                        ) by {
                            if i < middle {
                                crate::lex::lemma_transitive(
                                    text_bytes(files@[i].digest@),
                                    text_bytes(files@[middle as int].digest@),
                                    key,
                                );
                            }
                        }
                    }
                    low = middle + 1;
                },
                Rank::After => {
                    proof {
                        assert forall|i: int| middle <= i < files.len() implies precedes(
                            key,
                            text_bytes((#[trigger] files@[i]).digest@),
                        ) by {
                            if middle < i {
                                crate::lex::lemma_transitive(
                                    key,
                                    text_bytes(files@[middle as int].digest@),
                                    text_bytes(files@[i].digest@),
                                );
                            }
                        }
                    }
                    high = middle;
                },
            }
        }
        proof {
            assert forall|i: int| 0 <= i < files@.len() implies (#[trigger] files@[i]).digest@
                != digest@ by {
                if i < low {
                    crate::lex::lemma_asymmetric(text_bytes(files@[i].digest@), key);
                } else {
                    crate::lex::lemma_asymmetric(key, text_bytes(files@[i].digest@));
                }
            }
        }
        None
    }
}

/// Files that carry the hexadecimal text of increasing digests are in order.
/// So are the files made from an assembled manifest, one for each entry and
/// under the key that its index gives: [`Manifest::new`] accepts them.
pub proof fn lemma_hex_keys_are_in_order(files: Seq<File<'_>>, digests: Seq<Seq<u8>>)
    requires
        files.len() == digests.len(),
        increasing(digests),
        forall|i: int|
            0 <= i < files.len() ==> (#[trigger] files[i]).digest@ == ascii_text(
                hex_encode(digests[i]),
            ),
    ensures
        keyed(files),
{
    assert forall|i: int, j: int| 0 <= i < j < files.len() implies precedes(
        text_bytes((#[trigger] files[i]).digest@),
        text_bytes((#[trigger] files[j]).digest@),
    ) by {
        assert(precedes(digests[i], digests[j]));
        lemma_hex_keeps_order(digests[i], digests[j]);
        lemma_hex_decode_encode(digests[i]);
        lemma_hex_decode_encode(digests[j]);
        lemma_ascii_is_utf8(hex_encode(digests[i]));
        lemma_ascii_is_utf8(hex_encode(digests[j]));
    }
}

/// Files each of which sorts before the next are in strictly increasing
/// order.
proof fn lemma_neighbours_suffice(files: Seq<File<'_>>)
    requires
        forall|k: int|
            1 <= k < files.len() ==> precedes(
                text_bytes((#[trigger] files[k - 1]).digest@),
                text_bytes(files[k].digest@),
            ),
    ensures
        keyed(files),
    decreases files.len(),
{
    if files.len() > 1 {
        let front = files.drop_last();
        assert forall|k: int| 1 <= k < front.len() implies precedes(
            text_bytes((#[trigger] front[k - 1]).digest@),
            text_bytes(front[k].digest@),
        ) by {
            assert(front[k - 1] == files[k - 1]);
        }
        lemma_neighbours_suffice(front);
        let last = files.len() - 1;
        assert forall|i: int, j: int| 0 <= i < j < files.len() implies precedes(
            text_bytes((#[trigger] files[i]).digest@),
            text_bytes((#[trigger] files[j]).digest@),
        ) by {
            if j < last {
                assert(front[i] == files[i] && front[j] == files[j]);
            } else {
                assert(precedes(
                    text_bytes(files[last - 1].digest@),
                    text_bytes(files[last].digest@),
                ));
                if i < last - 1 {
                    assert(front[i] == files[i] && front[last - 1] == files[last - 1]);
                    crate::lex::lemma_transitive(
                        text_bytes(files[i].digest@),
                        text_bytes(files[last - 1].digest@),
                        text_bytes(files[last].digest@),
                    );
                }
            }
        }
    }
}

/// In a keyed table the file at `at` is the only one with its digest.
proof fn lemma_found_once(files: Seq<File<'_>>, at: int)
    requires
        keyed(files),
        0 <= at < files.len(),
    ensures
        forall|i: int|
            0 <= i < files.len() && (#[trigger] files[i]).digest@ == files[at].digest@ ==> i == at,
{
    assert forall|i: int|
        0 <= i < files.len() && (#[trigger] files[i]).digest@ == files[at].digest@ implies i
        == at by {
        if i < at {
            crate::lex::lemma_asymmetric(
                text_bytes(files[i].digest@),
                text_bytes(files[at].digest@),
            );
        } else if at < i {
            crate::lex::lemma_asymmetric(
                text_bytes(files[at].digest@),
                text_bytes(files[i].digest@),
            );
        }
    }
}

} // verus!
