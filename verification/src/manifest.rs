//! Scanning a directory and assembling what was found.
//!
//! A scan yields one [`Entry`] for every regular file: its path and the
//! digest of its content. Assembly keeps one entry for every digest and puts
//! the entries in the order of their digests, so that the same files give the
//! same [`Manifest`] in whatever order the directory was walked. Of several
//! files with the same content, the one whose path sorts first stands for
//! all of them.

use vstd::prelude::*;

use crate::cache::{after_lookup, answer, computes, Cache};
use crate::digest::{hex_encode, lemma_hex_keeps_order, Digest, Hex};
use crate::lex::{
    at_most, compare, compare_text, increasing, lemma_antisymmetric, lemma_asymmetric,
    lemma_before_at_most, lemma_increasing_distinct, lemma_increasing_unique,
    lemma_text_bytes_injective, lemma_transitive, precedes, text_bytes, Rank,
};

verus! {

/// What contracts say of an entry: the bytes of its digest and the characters
/// of its path.
pub struct EntryView {
    pub digest: Seq<u8>,
    pub path: Seq<char>,
}

/// A file that a scan came upon: where it is, and the digest of its content.
#[derive(Debug, Clone, PartialEq, Eq, PartialOrd, Ord, Hash)]
pub struct Entry {
    digest: Digest,
    path: String,
}

impl View for Entry {
    type V = EntryView;

    closed spec fn view(&self) -> EntryView {
        EntryView { digest: self.digest@, path: self.path@ }
    }
}

impl Entry {
    /// The entry for the file at `path` whose content has the digest `digest`.
    pub fn new(digest: Digest, path: String) -> (entry: Entry)
        ensures
            entry@.digest == digest@,
            entry@.path == path@,
    {
        Entry { digest, path }
    }

    /// The digest of the file's content.
    pub fn digest(&self) -> (digest: Digest)
        ensures
            digest@ == self@.digest,
    {
        self.digest
    }

    /// The path of the file.
    pub fn path(&self) -> (path: &str)
        ensures
            path@ == self@.path,
    {
        self.path.as_str()
    }

    /// The name under which the file is bundled: the last component of its
    /// path, if the path has one.
    pub fn name(&self) -> (name: Option<String>)
        ensures
            name is Some <==> file_name_of(self@.path) is Some,
            name matches Some(text) ==> Some(text@) == file_name_of(self@.path),
    {
        last_component(self.path.as_str())
    }

    /// The media type under which the file is bundled, guessed from its path.
    pub fn mime(&self) -> (mime: String)
        ensures
            mime@ == guessed_mime(self@.path),
    {
        guess_mime(self.path.as_str())
    }
}

/// The last component of a path, or `None` where the path has none (it is
/// empty, is a root, or ends in `..`).
pub uninterp spec fn file_name_of(path: Seq<char>) -> Option<Seq<char>>;

/// The media type that is guessed for a path from its extension;
/// `application/octet-stream` where the extension is missing or unknown.
pub uninterp spec fn guessed_mime(path: Seq<char>) -> Seq<char>;

/// `std::path::Path::file_name` on the path that `path` spells: its last
/// component, as text. The path is taken apart by the rules of the platform
/// that the library is built for; nothing is read from disk. The contract
/// claims no more than that the result depends on the path alone.
#[verifier::external_body]
fn last_component(path: &str) -> (name: Option<String>)
    ensures
        name is Some <==> file_name_of(path@) is Some,
        name matches Some(text) ==> Some(text@) == file_name_of(path@),
{
    let name = std::path::Path::new(path).file_name()?;
    Some(name.to_string_lossy().into_owned())
}

/// `mime_guess::from_path` followed by `MimeGuess::first_or_octet_stream`,
/// written out as text: the first media type that the crate's table lists for
/// the extension of `path`. Nothing is read from disk. The contract claims
/// no more than that the result depends on the path alone.
#[verifier::external_body]
fn guess_mime(path: &str) -> (mime: String)
    ensures
        mime@ == guessed_mime(path@),
{
    mime_guess::from_path(path).first_or_octet_stream().to_string()
}

/// The entries as contracts speak of them.
pub open spec fn views(entries: Seq<Entry>) -> Seq<EntryView> {
    entries.map_values(|entry: Entry| entry@)
}

/// The digests of the entries, in the order of the entries.
pub open spec fn digests(entries: Seq<EntryView>) -> Seq<Seq<u8>> {
    entries.map_values(|entry: EntryView| entry.digest)
}

/// `entry` stands for its content among the scanned files: it is one of
/// them, and none of them with the same digest has a path that sorts before
/// its path.
pub open spec fn represents(entry: EntryView, scanned: Seq<EntryView>) -> bool {
    &&& scanned.contains(entry)
    &&& forall|j: int|
        0 <= j < scanned.len() && (#[trigger] scanned[j]).digest == entry.digest ==> at_most(
            text_bytes(entry.path),
            text_bytes(scanned[j].path),
        )
}

/// `manifest` is what `scanned` assembles to: its digests increase, each of
/// its entries stands for its content among the scanned files, and every
/// scanned file's content is there.
pub open spec fn assembles(manifest: Seq<EntryView>, scanned: Seq<EntryView>) -> bool {
    &&& increasing(digests(manifest))
    &&& forall|i: int| 0 <= i < manifest.len() ==> represents(#[trigger] manifest[i], scanned)
    &&& forall|j: int|
        0 <= j < scanned.len() ==> digests(manifest).contains((#[trigger] scanned[j]).digest)
}

/// No two of the scanned files have the same content.
pub open spec fn all_differ(scanned: Seq<EntryView>) -> bool {
    digests(scanned).no_duplicates()
}

/// The assembled result of a scan: one entry for every digest, in the order
/// of the digests.
#[derive(Debug, PartialEq, Eq)]
pub struct Manifest {
    entries: Vec<Entry>,
}

impl View for Manifest {
    type V = Seq<EntryView>;

    closed spec fn view(&self) -> Seq<EntryView> {
        views(self.entries@)
    }
}

impl Manifest {
    #[verifier::type_invariant]
    spec fn in_order(self) -> bool {
        increasing(digests(views(self.entries@)))
    }

    /// Assembles the manifest of the scanned files. It has one entry for
    /// every digest that occurs among them, so never more entries than there
    /// are files, and as many only if no two files have the same content.
    /// The order in which the files are given makes no difference (see
    /// [`lemma_assembly_is_unique`]).
    pub fn assemble(scanned: Vec<Entry>) -> (manifest: Manifest)
        ensures
            assembles(manifest@, views(scanned@)),
            manifest@.len() == digests(views(scanned@)).to_set().len(),
            manifest@.len() <= scanned@.len(),
            manifest@.len() == scanned@.len() <==> all_differ(views(scanned@)),
    {
        let ghost all = views(scanned@);
        let mut rest = scanned;
        let mut kept: Vec<Entry> = Vec::new();
        assert(all.skip(all.len() as int) =~= Seq::<EntryView>::empty());
        while rest.len() > 0
            invariant
                rest@.len() <= all.len(),
                views(rest@) == all.take(rest@.len() as int),
                assembles(views(kept@), all.skip(rest@.len() as int)),
            decreases rest.len(),
        {
            let ghost count = rest@.len() as int;
            let ghost waiting = rest@;
            let entry = rest.pop().unwrap();
            proof {
                assert(entry@ == views(waiting)[count - 1]);
                assert(entry@ == all[count - 1]);
                assert(views(rest@) =~= all.take(count - 1));
                assert(seq![entry@] + all.skip(count) =~= all.skip(count - 1));
            }
            place(&mut kept, entry, Ghost(all.skip(count)));
        }
        proof {
            assert(all.skip(0) =~= all);
            lemma_one_entry_per_digest(views(kept@), all);
        }
        Manifest { entries: kept }
    }

    /// The entries, in the order of their digests.
    pub fn entries(&self) -> (entries: &[Entry])
        ensures
            views(entries@) == self@,
            increasing(digests(self@)),
    {
        proof {
            use_type_invariant(self);
        }
        self.entries.as_slice()
    }

    /// The keys under which the entries are looked up: the hexadecimal text
    /// of each entry's digest, in the order of the entries. The keys increase
    /// as the digests do, so the table that they key can be searched.
    pub fn index(&self) -> (keys: Vec<Hex>)
        ensures
            keys@.len() == self@.len(),
            forall|i: int|
                0 <= i < keys@.len() ==> (#[trigger] keys@[i])@ == hex_encode(self@[i].digest),
            forall|i: int, j: int|
                0 <= i < j < keys@.len() ==> precedes(
                    (#[trigger] keys@[i])@,
                    (#[trigger] keys@[j])@,
                ),
    {
        proof {
            use_type_invariant(self);
        }
        let mut keys: Vec<Hex> = Vec::new();
        let mut at: usize = 0;
        while at < self.entries.len()
            invariant
                at <= self.entries.len(),
                keys@.len() == at,
                forall|i: int|
                    0 <= i < at ==> (#[trigger] keys@[i])@ == hex_encode(self@[i].digest),
            decreases self.entries.len() - at,
        {
            let key = self.entries[at].digest.to_hex();
            assert(self@[at as int] == self.entries@[at as int]@);
            keys.push(key);
            at += 1;
        }
        proof {
            assert forall|i: int, j: int| 0 <= i < j < keys@.len() implies precedes(
                (#[trigger] keys@[i])@,
                (#[trigger] keys@[j])@,
            ) by {
                let keyed = digests(self@);
                assert(precedes(keyed[i], keyed[j]));
                lemma_hex_keeps_order(self@[i].digest, self@[j].digest);
            }
        }
        keys
    }
}

/// The answer of the cache behind an outcome that may also be "nothing to
/// digest".
pub open spec fn looked_up<E>(outcome: Result<Option<Digest>, E>) -> Result<Digest, E> {
    match outcome {
        Ok(found) => Ok(found.unwrap()),
        Err(error) => Err(error),
    }
}

/// The digest of the file that a reference was resolved to, from the cache
/// if it is known there and else computed by `f` and remembered. A reference
/// that could not be resolved has no digest: that is no error, and nothing
/// is computed for it.
pub fn digest<F, E>(cache: &mut Cache, resolved: Option<&str>, f: F) -> (outcome: Result<
    Option<Digest>,
    E,
>) where F: FnOnce(&str) -> Result<Digest, E>
    requires
        resolved matches Some(path) ==> (computes(old(cache)@, path@) ==> call_requires(
            f,
            (path,),
        )),
    ensures
        resolved is None ==> outcome == Ok::<Option<Digest>, E>(None) && final(cache)@ == old(
            cache,
        )@,
        resolved matches Some(path) ==> {
            &&& !(outcome matches Ok(None))
            &&& computes(old(cache)@, path@) ==> call_ensures(f, (path,), looked_up(outcome))
            &&& looked_up(outcome) == answer(old(cache)@, path@, looked_up(outcome))
            &&& final(cache)@ == after_lookup(old(cache)@, path@, looked_up(outcome))
        },
{
    match resolved {
        Some(path) => match cache.get_or_try_set(path, f) {
            Ok(found) => Ok(Some(found)),
            Err(error) => Err(error),
        },
        None => Ok(None),
    }
}

/// The files that a scan has come upon so far.
pub struct Scanner {
    found: Vec<Entry>,
}

impl View for Scanner {
    type V = Seq<EntryView>;

    closed spec fn view(&self) -> Seq<EntryView> {
        views(self.found@)
    }
}

/// What a scan has found once it has been to `path`: one entry more if a
/// digest was had for it, the same as before if not.
pub open spec fn noted<E>(
    found: Seq<EntryView>,
    path: Seq<char>,
    outcome: Result<Option<Digest>, E>,
) -> Seq<EntryView> {
    match outcome {
        Ok(Some(digest)) => found.push(EntryView { digest: digest@, path }),
        _ => found,
    }
}

impl Scanner {
    /// A scan that has not found anything yet.
    pub fn new() -> (scanner: Scanner)
        ensures
            scanner@ == Seq::<EntryView>::empty(),
    {
        let scanner = Scanner { found: Vec::new() };
        assert(scanner@ =~= Seq::<EntryView>::empty());
        scanner
    }

    /// Takes in the next thing that the walk of the directory came upon.
    /// Only a regular file counts: its digest is had from the cache, or
    /// computed by `f` and remembered there, and the file is noted with it.
    /// If `f` fails, its error is handed on, and neither the scan nor the
    /// cache has changed: the caller gives the scan up.
    pub fn visit<F, E>(&mut self, cache: &mut Cache, path: &str, is_file: bool, f: F) -> (outcome:
        Result<Option<Digest>, E>) where F: FnOnce(&str) -> Result<Digest, E>
        requires
            is_file && computes(old(cache)@, path@) ==> call_requires(f, (path,)),
        ensures
            final(self)@ == noted(old(self)@, path@, outcome),
            !is_file ==> outcome == Ok::<Option<Digest>, E>(None) && final(cache)@ == old(
                cache,
            )@,
            is_file ==> {
                &&& !(outcome matches Ok(None))
                &&& computes(old(cache)@, path@) ==> call_ensures(f, (path,), looked_up(outcome))
                &&& looked_up(outcome) == answer(old(cache)@, path@, looked_up(outcome))
                &&& final(cache)@ == after_lookup(old(cache)@, path@, looked_up(outcome))
            },
    {
        if !is_file {
            return Ok(None);
        }
        match cache.get_or_try_set(path, f) {
            Ok(digest) => {
                let ghost before = self@;
                self.found.push(Entry { digest, path: path.to_owned() });
                assert(self@ =~= before.push(EntryView { digest: digest@, path: path@ }));
                Ok(Some(digest))
            },
            Err(error) => Err(error),
        }
    }

    /// The manifest of all that the scan has found.
    pub fn finish(self) -> (manifest: Manifest)
        ensures
            assembles(manifest@, self@),
            manifest@.len() == digests(self@).to_set().len(),
            manifest@.len() <= self@.len(),
            manifest@.len() == self@.len() <==> all_differ(self@),
    {
        Manifest::assemble(self.found)
    }
}

/// An assembly has one entry for every digest among the scanned files: as
/// many entries as there are different digests, so at most as many as there
/// are files, and exactly as many when no two files have the same content.
pub proof fn lemma_one_entry_per_digest(manifest: Seq<EntryView>, scanned: Seq<EntryView>)
    requires
        assembles(manifest, scanned),
    ensures
        digests(manifest).no_duplicates(),
        digests(manifest).to_set() == digests(scanned).to_set(),
        manifest.len() == digests(scanned).to_set().len(),
        manifest.len() <= scanned.len(),
        manifest.len() == scanned.len() <==> all_differ(scanned),
{
    let kept = digests(manifest);
    let seen = digests(scanned);
    lemma_increasing_distinct(kept);
    assert forall|digest: Seq<u8>| kept.contains(digest) <==> seen.contains(digest) by {
        if kept.contains(digest) {
            let i = choose|i: int| 0 <= i < kept.len() && kept[i] == digest;
            assert(represents(manifest[i], scanned));
            let j = choose|j: int| 0 <= j < scanned.len() && scanned[j] == manifest[i];
            assert(seen[j] == digest);
        }
        if seen.contains(digest) {
            let j = choose|j: int| 0 <= j < seen.len() && seen[j] == digest;
            assert(kept.contains(scanned[j].digest));
        }
    }
    assert(kept.to_set() =~= seen.to_set());
    kept.unique_seq_to_set();
    seen.lemma_cardinality_of_set();
    if seen.no_duplicates() {
        seen.unique_seq_to_set();
    }
    if manifest.len() == scanned.len() {
        seen.lemma_no_dup_set_cardinality();
    }
}

/// The same files assemble to the same manifest: two assemblies of scans
/// that came upon the same files, in whatever order and however often, are
/// equal entry for entry.
pub proof fn lemma_assembly_is_unique(
    first: Seq<EntryView>,
    scanned: Seq<EntryView>,
    second: Seq<EntryView>,
    shuffled: Seq<EntryView>,
)
    requires
        assembles(first, scanned),
        assembles(second, shuffled),
        forall|entry: EntryView| scanned.contains(entry) <==> shuffled.contains(entry),
    ensures
        first == second,
{
    lemma_same_files_same_digests(scanned, shuffled);
    lemma_one_entry_per_digest(first, scanned);
    lemma_one_entry_per_digest(second, shuffled);
    let keys = digests(first);
    let other = digests(second);
    assert forall|digest: Seq<u8>| keys.contains(digest) <==> other.contains(digest) by {
        assert(keys.to_set().contains(digest) <==> other.to_set().contains(digest));
    }
    lemma_increasing_unique(keys, other);
    assert(first.len() == second.len());
    assert forall|i: int| 0 <= i < first.len() implies first[i] == second[i] by {
        let a = first[i];
        let b = second[i];
        assert(keys[i] == a.digest && other[i] == b.digest);
        assert(represents(a, scanned) && represents(b, shuffled));
        assert(shuffled.contains(a) && scanned.contains(b));
        let j = choose|j: int| 0 <= j < shuffled.len() && shuffled[j] == a;
        assert(at_most(text_bytes(b.path), text_bytes(shuffled[j].path)));
        let k = choose|k: int| 0 <= k < scanned.len() && scanned[k] == b;
        assert(at_most(text_bytes(a.path), text_bytes(scanned[k].path)));
        lemma_antisymmetric(text_bytes(a.path), text_bytes(b.path));
        lemma_text_bytes_injective(a.path, b.path);
    }
    assert(first =~= second);
}

/// Scans that came upon the same files came upon the same digests.
proof fn lemma_same_files_same_digests(scanned: Seq<EntryView>, shuffled: Seq<EntryView>)
    requires
        forall|entry: EntryView| scanned.contains(entry) <==> shuffled.contains(entry),
    ensures
        digests(scanned).to_set() == digests(shuffled).to_set(),
{
    let a = digests(scanned);
    let b = digests(shuffled);
    assert forall|digest: Seq<u8>| a.contains(digest) <==> b.contains(digest) by {
        if a.contains(digest) {
            let i = choose|i: int| 0 <= i < a.len() && a[i] == digest;
            assert(scanned.contains(scanned[i]));
            let j = choose|j: int| 0 <= j < shuffled.len() && shuffled[j] == scanned[i];
            assert(b[j] == digest);
        }
        if b.contains(digest) {
            let i = choose|i: int| 0 <= i < b.len() && b[i] == digest;
            assert(shuffled.contains(shuffled[i]));
            let j = choose|j: int| 0 <= j < scanned.len() && scanned[j] == shuffled[i];
            assert(a[j] == digest);
        }
    }
    assert(a.to_set() =~= b.to_set());
}

/// Puts `entry` among `kept`, which is the assembly of the files `seen`:
/// afterwards `kept` is the assembly of `entry` and `seen`.
fn place(kept: &mut Vec<Entry>, entry: Entry, Ghost(seen): Ghost<Seq<EntryView>>)
    requires
        assembles(views(old(kept)@), seen),
    ensures
        assembles(views(final(kept)@), seq![entry@] + seen),
{
    let ghost before = views(kept@);
    let mut at: usize = 0;
    let mut rank = Rank::After;
    while at < kept.len()
        invariant
            at <= kept.len(),
            views(kept@) == before,
            forall|i: int| 0 <= i < at ==> precedes((#[trigger] before[i]).digest, entry@.digest),
        ensures
            at <= kept.len(),
            views(kept@) == before,
            forall|i: int| 0 <= i < at ==> precedes((#[trigger] before[i]).digest, entry@.digest),
            at < kept.len() ==> (rank == Rank::Same && before[at as int].digest == entry@.digest)
                || (rank == Rank::After && precedes(entry@.digest, before[at as int].digest)),
        decreases kept.len() - at,
    {
        assert(before[at as int] == kept@[at as int]@);
        rank = compare(kept[at].digest.as_bytes(), entry.digest.as_bytes());
        match rank {
            Rank::Before => {
                at += 1;
            },
            _ => {
                break ;
            },
        }
    }
    if at < kept.len() && matches!(rank, Rank::Same) {
        assert(before[at as int] == kept@[at as int]@);
        match compare_text(entry.path.as_str(), kept[at].path.as_str()) {
            Rank::Before => {
                proof {
                    lemma_replace(before, seen, entry@, at as int);
                }
                kept[at] = entry;
                assert(views(kept@) =~= before.update(at as int, entry@));
            },
            _ => {
                proof {
                    lemma_keep(before, seen, entry@, at as int);
                }
            },
        }
    } else {
        proof {
            lemma_insert(before, seen, entry@, at as int);
        }
        kept.insert(at, entry);
        assert(views(kept@) =~= before.insert(at as int, entry@));
    }
}

/// A file whose content is known, and whose path does not sort before the
/// path that stands for that content, changes nothing.
proof fn lemma_keep(manifest: Seq<EntryView>, seen: Seq<EntryView>, new: EntryView, at: int)
    requires
        assembles(manifest, seen),
        0 <= at < manifest.len(),
        manifest[at].digest == new.digest,
        at_most(text_bytes(manifest[at].path), text_bytes(new.path)),
    ensures
        assembles(manifest, seq![new] + seen),
{
    let all = seq![new] + seen;
    let keys = digests(manifest);
    lemma_increasing_distinct(keys);
    assert forall|i: int| 0 <= i < manifest.len() implies represents(
        #[trigger] manifest[i],
        all,
    ) by {
        assert(keys[i] == manifest[i].digest && keys[at] == new.digest);
        lemma_still_represents(manifest[i], seen, new);
    }
    assert forall|j: int| 0 <= j < all.len() implies digests(manifest).contains(
        (#[trigger] all[j]).digest,
    ) by {
        if j == 0 {
            assert(digests(manifest)[at] == new.digest);
        } else {
            assert(all[j] == seen[j - 1]);
        }
    }
}

/// A file whose content is known, and whose path sorts before the path that
/// stands for that content, takes that path's place.
proof fn lemma_replace(manifest: Seq<EntryView>, seen: Seq<EntryView>, new: EntryView, at: int)
    requires
        assembles(manifest, seen),
        0 <= at < manifest.len(),
        manifest[at].digest == new.digest,
        precedes(text_bytes(new.path), text_bytes(manifest[at].path)),
    ensures
        assembles(manifest.update(at, new), seq![new] + seen),
{
    let all = seq![new] + seen;
    let after = manifest.update(at, new);
    let old_one = manifest[at];
    let keys = digests(manifest);
    lemma_increasing_distinct(keys);
    assert(digests(after) =~= keys);
    assert(all[0] == new);
    assert forall|i: int| 0 <= i < after.len() implies represents(#[trigger] after[i], all) by {
        if i == at {
            assert forall|j: int|
                0 <= j < all.len() && (#[trigger] all[j]).digest == new.digest implies at_most(
                text_bytes(new.path),
                text_bytes(all[j].path),
            ) by {
                if j > 0 {
                    assert(represents(old_one, seen));
                    assert(seen[j - 1].digest == old_one.digest);
                    lemma_before_at_most(
                        text_bytes(new.path),
                        text_bytes(old_one.path),
                        text_bytes(seen[j - 1].path),
                    );
                }
            }
        } else {
            assert(after[i] == manifest[i]);
            assert(keys[i] == manifest[i].digest && keys[at] == new.digest);
            lemma_still_represents(manifest[i], seen, new);
        }
    }
    assert forall|j: int| 0 <= j < all.len() implies digests(after).contains(
        (#[trigger] all[j]).digest,
    ) by {
        if j == 0 {
            assert(digests(manifest)[at] == new.digest);
        } else {
            assert(all[j] == seen[j - 1]);
        }
    }
}

/// A file whose content is new goes where its digest belongs: after the
/// digests that sort before it and before the others.
proof fn lemma_insert(manifest: Seq<EntryView>, seen: Seq<EntryView>, new: EntryView, at: int)
    requires
        assembles(manifest, seen),
        0 <= at <= manifest.len(),
        forall|i: int| 0 <= i < at ==> precedes((#[trigger] manifest[i]).digest, new.digest),
        at < manifest.len() ==> precedes(new.digest, manifest[at].digest),
    ensures
        assembles(manifest.insert(at, new), seq![new] + seen),
{
    let all = seq![new] + seen;
    let after = manifest.insert(at, new);
    let keys = digests(manifest);
    assert(digests(after) =~= keys.insert(at, new.digest));
    assert(all[0] == new);
    assert forall|i: int| at <= i < keys.len() implies precedes(new.digest, #[trigger] keys[i]) by {
        if at < i {
            assert(precedes(keys[at], keys[i]));
            lemma_transitive(new.digest, keys[at], keys[i]);
        }
    }
    assert forall|i: int| 0 <= i < keys.len() implies #[trigger] keys[i] != new.digest by {
        if i < at {
            assert(precedes(manifest[i].digest, new.digest));
            lemma_asymmetric(keys[i], new.digest);
        } else {
            lemma_asymmetric(new.digest, keys[i]);
        }
    }
    lemma_insert_keeps_increasing(keys, new.digest, at);
    assert forall|i: int| 0 <= i < after.len() implies represents(#[trigger] after[i], all) by {
        if i == at {
            assert forall|j: int|
                0 <= j < all.len() && (#[trigger] all[j]).digest == new.digest implies at_most(
                text_bytes(new.path),
                text_bytes(all[j].path),
            ) by {
                if j > 0 {
                    assert(keys.contains(seen[j - 1].digest));
                }
            }
        } else {
            let was = if i < at {
                i
            } else {
                i - 1
            };
            assert(after[i] == manifest[was]);
            assert(keys[was] == manifest[was].digest);
            lemma_still_represents(manifest[was], seen, new);
        }
    }
    assert forall|j: int| 0 <= j < all.len() implies digests(after).contains(
        (#[trigger] all[j]).digest,
    ) by {
        if j == 0 {
            assert(digests(after)[at] == new.digest);
        } else {
            let wanted = seen[j - 1].digest;
            assert(keys.contains(wanted));
            let i = choose|i: int| 0 <= i < keys.len() && keys[i] == wanted;
            if i < at {
                assert(digests(after)[i] == wanted);
            } else {
                assert(digests(after)[i + 1] == wanted);
            }
        }
    }
}

/// A key put between the keys that sort before it and those that sort after
/// it leaves the keys increasing.
proof fn lemma_insert_keeps_increasing(keys: Seq<Seq<u8>>, key: Seq<u8>, at: int)
    requires
        increasing(keys),
        0 <= at <= keys.len(),
        forall|i: int| 0 <= i < at ==> precedes(#[trigger] keys[i], key),
        forall|i: int| at <= i < keys.len() ==> precedes(key, #[trigger] keys[i]),
    ensures
        increasing(keys.insert(at, key)),
{
    let longer = keys.insert(at, key);
    assert forall|i: int, j: int| 0 <= i < j < longer.len() implies precedes(
        #[trigger] longer[i],
        #[trigger] longer[j],
    ) by {
        let from = if i < at {
            i
        } else {
            i - 1
        };
        let to = if j < at {
            j
        } else {
            j - 1
        };
        if i == at {
            assert(longer[j] == keys[to]);
        } else if j == at {
            assert(longer[i] == keys[from]);
        } else {
            assert(longer[i] == keys[from] && longer[j] == keys[to]);
            assert(precedes(keys[from], keys[to]));
        }
    }
}

/// An entry goes on standing for its content when one more file is scanned,
/// unless that file has the same content and a path that sorts before its
/// own.
proof fn lemma_still_represents(entry: EntryView, seen: Seq<EntryView>, new: EntryView)
    requires
        represents(entry, seen),
        new.digest == entry.digest ==> at_most(text_bytes(entry.path), text_bytes(new.path)),
    ensures
        represents(entry, seq![new] + seen),
{
    let all = seq![new] + seen;
    let j = choose|j: int| 0 <= j < seen.len() && seen[j] == entry;
    assert(all[j + 1] == entry);
    assert forall|j: int|
        0 <= j < all.len() && (#[trigger] all[j]).digest == entry.digest implies at_most(
        text_bytes(entry.path),
        text_bytes(all[j].path),
    ) by {
        if j > 0 {
            assert(all[j] == seen[j - 1]);
        }
    }
}

} // verus!
