//! Collecting the files that a map or world needs into one download bundle:
//! the map itself, the tilesets and images it names, and for a world every map
//! it lists, each file once.
use vstd::prelude::*;
use std::io::{Cursor, Write};
use zip::write::SimpleFileOptions;
use zip::{CompressionMethod, ZipWriter};
use vstd::utf8::{decode_utf8, encode_utf8, valid_utf8};
use crate::download::{DownloadError, archive_name_for, bundle_archive_name};
use crate::manifest::MapManifestEntry;
use crate::paths::{
    extension_of, lemma_normalize_idempotent, lemma_resolved_reference_is_normal,
    normalize_relative_path, normalized_path, path_extension, resolve_reference_path,
    resolved_reference,
};
use crate::text::{ascii_lower_seq, chars_of, string_of};
use crate::xml::{string_views, tiled_xml_references, xml_references};

verus! {

broadcast use vstd::utf8::encode_utf8_decode_utf8;

/// One file of a bundle: its path below the asset root and its bytes.
#[derive(Clone, Debug)]
pub struct BundleFile {
    pub path: String,
    pub bytes: Vec<u8>,
}

/// Byte-wise lexicographic order, the order of `str` and `String`.
pub open spec fn bytes_before(a: Seq<u8>, b: Seq<u8>) -> bool
    decreases a.len(),
{
    if a.len() == 0 {
        b.len() > 0
    } else if b.len() == 0 {
        false
    } else if a[0] != b[0] {
        a[0] < b[0]
    } else {
        bytes_before(a.drop_first(), b.drop_first())
    }
}

/// The order of paths: that of their UTF-8 bytes.
pub open spec fn path_before(a: Seq<char>, b: Seq<char>) -> bool {
    bytes_before(encode_utf8(a), encode_utf8(b))
}

pub(crate) proof fn lemma_bytes_before_irreflexive(a: Seq<u8>)
    ensures
        !bytes_before(a, a),
    decreases a.len(),
{
    if a.len() > 0 {
        lemma_bytes_before_irreflexive(a.drop_first());
    }
}

pub(crate) proof fn lemma_bytes_before_transitive(a: Seq<u8>, b: Seq<u8>, c: Seq<u8>)
    requires
        bytes_before(a, b),
        bytes_before(b, c),
    ensures
        bytes_before(a, c),
    decreases a.len(),
{
    if a.len() > 0 && b.len() > 0 && c.len() > 0 && a[0] == b[0] && b[0] == c[0] {
        lemma_bytes_before_transitive(a.drop_first(), b.drop_first(), c.drop_first());
    }
}

pub(crate) proof fn lemma_bytes_before_total(a: Seq<u8>, b: Seq<u8>)
    requires
        a != b,
    ensures
        bytes_before(a, b) || bytes_before(b, a),
    decreases a.len(),
{
    if a.len() > 0 && b.len() > 0 && a[0] == b[0] {
        if a.drop_first() == b.drop_first() {
            assert(a =~= seq![a[0]] + a.drop_first());
            assert(b =~= seq![b[0]] + b.drop_first());
        }
        lemma_bytes_before_total(a.drop_first(), b.drop_first());
    } else if a.len() == 0 && b.len() == 0 {
        assert(a =~= b);
    }
}

pub(crate) proof fn lemma_bytes_before_asymmetric(a: Seq<u8>, b: Seq<u8>)
    requires
        bytes_before(a, b),
    ensures
        !bytes_before(b, a),
{
    if bytes_before(b, a) {
        lemma_bytes_before_transitive(a, b, a);
        lemma_bytes_before_irreflexive(a);
    }
}

/// The paths of `files`, each file after the one before it in path order
/// (so no path occurs twice).
pub open spec fn sorted_files(files: Seq<BundleFile>) -> bool {
    forall|i: int, j: int| 0 <= i < j < files.len() ==> path_before(#[trigger] files[i].path@, #[trigger] files[j].path@)
}

/// Whether some file of `files` has path `p`.
pub open spec fn has_path(files: Seq<BundleFile>, p: Seq<char>) -> bool {
    exists|i: int| 0 <= i < files.len() && #[trigger] files[i].path@ == p
}

/// The files taken as a map from path to bytes.
pub open spec fn file_map(files: Seq<BundleFile>) -> Map<Seq<char>, Seq<u8>> {
    Map::new(
        |p: Seq<char>| has_path(files, p),
        |p: Seq<char>| files[choose|i: int| 0 <= i < files.len() && #[trigger] files[i].path@ == p].bytes@,
    )
}

proof fn lemma_sorted_distinct(files: Seq<BundleFile>, i: int, j: int)
    requires
        sorted_files(files),
        0 <= i < files.len(),
        0 <= j < files.len(),
        i != j,
    ensures
        files[i].path@ != files[j].path@,
{
    if i < j {
        assert(path_before(files[i].path@, files[j].path@));
    } else {
        assert(path_before(files[j].path@, files[i].path@));
    }
    lemma_bytes_before_irreflexive(encode_utf8(files[i].path@));
}

/// Whether `files` holds a file with path `path`.
pub fn contains_path(files: &Vec<BundleFile>, path: &String) -> (b: bool)
    ensures
        b == has_path(files@, path@),
{
    let mut i: usize = 0;
    while i < files.len()
        invariant
            i <= files.len(),
            forall|k: int| 0 <= k < i ==> #[trigger] files@[k].path@ != path@,
        decreases files.len() - i,
    {
        if files[i].path.eq(path) {
            return true;
        }
        i = i + 1;
    }
    false
}

/// Whether `a` comes before `b` in byte-wise lexicographic order.
pub(crate) fn bytes_less(a: &[u8], b: &[u8]) -> (r: bool)
    ensures
        r == bytes_before(a@, b@),
{
    let mut i: usize = 0;
    assert(a@.skip(0) =~= a@);
    assert(b@.skip(0) =~= b@);
    while i < a.len() && i < b.len() && a[i] == b[i]
        invariant
            i <= a.len(),
            i <= b.len(),
            bytes_before(a@, b@) == bytes_before(a@.skip(i as int), b@.skip(i as int)),
        decreases a.len() - i,
    {
        assert(a@.skip(i as int).drop_first() =~= a@.skip(i + 1));
        assert(b@.skip(i as int).drop_first() =~= b@.skip(i + 1));
        i = i + 1;
    }
    if i == a.len() {
        i < b.len()
    } else if i == b.len() {
        false
    } else {
        a[i] < b[i]
    }
}

/// Adds a file whose path is not in `files` at its place in path order.
pub fn insert_file(files: &mut Vec<BundleFile>, file: BundleFile)
    requires
        sorted_files(old(files)@),
        !has_path(old(files)@, file.path@),
    ensures
        sorted_files(final(files)@),
        file_map(final(files)@) == file_map(old(files)@).insert(file.path@, file.bytes@),
        final(files)@.len() == old(files)@.len() + 1,
{
    let ghost old_files = files@;
    let ghost fp = file.path@;
    let mut k: usize = 0;
    while k < files.len() && bytes_less(files[k].path.as_str().as_bytes(), file.path.as_str().as_bytes())
        invariant
            k <= files.len(),
            files@ == old_files,
            fp == file.path@,
            forall|i: int| 0 <= i < k ==> path_before(#[trigger] files@[i].path@, fp),
        decreases files.len() - k,
    {
        k = k + 1;
    }
    proof {
        if k < files.len() {
            assert(files@[k as int].path@ != fp);
            assert(encode_utf8(files@[k as int].path@) != encode_utf8(fp)) by {
                if encode_utf8(files@[k as int].path@) == encode_utf8(fp) {
                    assert(vstd::utf8::decode_utf8(encode_utf8(files@[k as int].path@)) == files@[k as int].path@);
                    assert(vstd::utf8::decode_utf8(encode_utf8(fp)) == fp);
                }
            }
            lemma_bytes_before_total(encode_utf8(files@[k as int].path@), encode_utf8(fp));
        }
    }
    let ghost fb = file.bytes@;
    files.insert(k, file);
    let ghost nf = files@;
    assert(nf == old_files.insert(k as int, nf[k as int]));
    proof {
        assert forall|i: int, j: int| 0 <= i < j < nf.len() implies path_before(#[trigger] nf[i].path@, #[trigger] nf[j].path@) by {
            if j < k {
                assert(nf[i] == old_files[i] && nf[j] == old_files[j]);
            } else if j == k {
                assert(nf[i] == old_files[i]);
            } else if i == k {
                assert(nf[j] == old_files[j - 1]);
                if j - 1 > k {
                    assert(path_before(old_files[k as int].path@, old_files[j - 1].path@));
                    lemma_bytes_before_transitive(
                        encode_utf8(fp),
                        encode_utf8(old_files[k as int].path@),
                        encode_utf8(old_files[j - 1].path@),
                    );
                }
            } else if i < k {
                assert(nf[i] == old_files[i] && nf[j] == old_files[j - 1]);
            } else {
                assert(nf[i] == old_files[i - 1] && nf[j] == old_files[j - 1]);
            }
        }
        let m_old = file_map(old_files);
        let m_new = file_map(nf);
        assert forall|p: Seq<char>| #[trigger] m_new.dom().contains(p) == m_old.insert(fp, fb).dom().contains(p) by {
            if has_path(nf, p) {
                let i = choose|i: int| 0 <= i < nf.len() && #[trigger] nf[i].path@ == p;
                if i < k {
                    assert(old_files[i].path@ == p);
                } else if i > k {
                    assert(old_files[i - 1].path@ == p);
                }
            }
            if has_path(old_files, p) {
                let i = choose|i: int| 0 <= i < old_files.len() && #[trigger] old_files[i].path@ == p;
                if i < k {
                    assert(nf[i].path@ == p);
                } else {
                    assert(nf[i + 1].path@ == p);
                }
            }
            if p == fp {
                assert(nf[k as int].path@ == p);
            }
        }
        assert(m_new.dom() =~= m_old.insert(fp, fb).dom());
        assert forall|p: Seq<char>| #[trigger] m_new.dom().contains(p) implies m_new[p] == m_old.insert(fp, fb)[p] by {
            let i = choose|i: int| 0 <= i < nf.len() && #[trigger] nf[i].path@ == p;
            if p == fp {
                if i != k {
                    lemma_sorted_distinct(nf, i, k as int);
                }
            } else {
                assert(i != k);
                let oi = if i < k { i } else { i - 1 };
                assert(old_files[oi].path@ == p);
                let oj = choose|j: int| 0 <= j < old_files.len() && #[trigger] old_files[j].path@ == p;
                if oj != oi {
                    lemma_sorted_distinct(old_files, oi, oj);
                }
            }
        }
        assert(m_new =~= m_old.insert(fp, fb));
    }
}

/// A map that a `.world` file lists, by the name of its file relative to the world.
#[derive(Clone, Debug)]
pub struct WorldMapRef {
    pub file_name: String,
}

/// The part of a `.world` file that bundling reads: the maps it lists.
#[derive(Clone, Debug)]
pub struct WorldDocument {
    pub maps: Vec<WorldMapRef>,
}

/// The file names of the maps of a world document.
pub open spec fn world_map_names(doc: WorldDocument) -> Seq<Seq<char>> {
    doc.maps@.map_values(|m: WorldMapRef| m.file_name@)
}

/// What the references of a `.world` file are, given the outcome of parsing it
/// (the document, or the parser's message).
pub open spec fn world_references_of(parsed: Result<WorldDocument, String>) -> Result<Seq<Seq<char>>, Seq<char>> {
    match parsed {
        Ok(doc) => Ok(world_map_names(doc)),
        Err(m) => Err("failed to parse .world file: "@ + m@),
    }
}

/// The references of a `.world` file: the file names of the maps it lists, in
/// order, or the parse error.
pub fn world_references(parsed: Result<WorldDocument, String>) -> (r: Result<Vec<String>, DownloadError>)
    ensures
        match r {
            Ok(v) => world_references_of(parsed) == Ok::<Seq<Seq<char>>, Seq<char>>(string_views(v@)),
            Err(e) => world_references_of(parsed) == Err::<Seq<Seq<char>>, Seq<char>>(e@),
        },
{
    match parsed {
        Ok(doc) => {
            let mut names: Vec<String> = Vec::new();
            let mut i: usize = 0;
            while i < doc.maps.len()
                invariant
                    i <= doc.maps.len(),
                    string_views(names@) =~= world_map_names(doc).take(i as int),
                decreases doc.maps.len() - i,
            {
                let name = doc.maps[i].file_name.as_str().to_owned();
                let ghost prev = string_views(names@);
                names.push(name);
                assert(string_views(names@) =~= prev.push(doc.maps@[i as int].file_name@));
                assert(world_map_names(doc).take(i + 1) =~= world_map_names(doc).take(i as int).push(
                    doc.maps@[i as int].file_name@,
                ));
                i = i + 1;
            }
            assert(world_map_names(doc).take(doc.maps.len() as int) =~= world_map_names(doc));
            Ok(names)
        },
        Err(m) => {
            let mut msg = String::from_str("failed to parse .world file: ");
            msg.append(m.as_str());
            Err(DownloadError::new(msg))
        },
    }
}

/// The message of the error that `String::from_utf8` reports for `bytes`
/// (of use only where they are not valid UTF-8).
pub uninterp spec fn utf8_error_text(bytes: Seq<u8>) -> Seq<char>;

/// `String::from_utf8` on a copy of `bytes`, with its error taken as its
/// message. The contract claims what `std` documents: the conversion succeeds
/// exactly on valid UTF-8, and the string's characters are those the bytes encode.
#[verifier::external_body]
pub(crate) fn string_from_utf8(bytes: &[u8]) -> (r: Result<String, String>)
    ensures
        match r {
            Ok(s) => valid_utf8(bytes@) && s@ == decode_utf8(bytes@),
            Err(m) => !valid_utf8(bytes@) && m@ == utf8_error_text(bytes@),
        },
{
    match String::from_utf8(bytes.to_vec()) {
        Ok(s) => Ok(s),
        Err(err) => Err(err.to_string()),
    }
}

/// What decoding a file's bytes as text gives: the text, or the message that
/// names the file.
pub open spec fn decoded_text(path: Seq<char>, bytes: Seq<u8>) -> Result<Seq<char>, Seq<char>> {
    if valid_utf8(bytes) {
        Ok(decode_utf8(bytes))
    } else {
        Err("'"@ + path + "' is not valid UTF-8: "@ + utf8_error_text(bytes))
    }
}

/// Decodes the bytes of the file `path` as UTF-8 text.
pub fn decode_text_file(path: &str, bytes: &[u8]) -> (r: Result<String, DownloadError>)
    ensures
        match r {
            Ok(s) => decoded_text(path@, bytes@) == Ok::<Seq<char>, Seq<char>>(s@),
            Err(e) => decoded_text(path@, bytes@) == Err::<Seq<char>, Seq<char>>(e@),
        },
{
    match string_from_utf8(bytes) {
        Ok(s) => Ok(s),
        Err(m) => {
            let mut msg = String::from_str("'");
            msg.append(path);
            msg.append("' is not valid UTF-8: ");
            msg.append(m.as_str());
            Err(DownloadError::new(msg))
        },
    }
}

/// Something still to fetch: a normalised path, or a reference found inside
/// the file `base`.
pub enum PendingRef {
    Resolved(String),
    Reference { base: String, reference: String },
}

/// A `PendingRef` taken by views.
pub enum PendingView {
    Resolved(Seq<char>),
    Reference(Seq<char>, Seq<char>),
}

impl View for PendingRef {
    type V = PendingView;

    open spec fn view(&self) -> PendingView {
        match self {
            PendingRef::Resolved(p) => PendingView::Resolved(p@),
            PendingRef::Reference { base, reference } => PendingView::Reference(base@, reference@),
        }
    }
}

/// Where a collection stands: not begun, waiting for the bytes of a file,
/// waiting for a world file to be parsed, done, or stopped by an error.
pub enum Stage {
    Start,
    AwaitBytes(String),
    AwaitWorld(String),
    Finished,
    Stopped,
}

/// A `Stage` taken by views.
pub enum StageView {
    Start,
    AwaitBytes(Seq<char>),
    AwaitWorld(Seq<char>),
    Finished,
    Stopped,
}

impl View for Stage {
    type V = StageView;

    open spec fn view(&self) -> StageView {
        match self {
            Stage::Start => StageView::Start,
            Stage::AwaitBytes(p) => StageView::AwaitBytes(p@),
            Stage::AwaitWorld(p) => StageView::AwaitWorld(p@),
            Stage::Finished => StageView::Finished,
            Stage::Stopped => StageView::Stopped,
        }
    }
}

/// What the collector asks of its caller: the bytes of a file, the parse of a
/// world file's text, or nothing more.
pub enum BundleRequest {
    Read(String),
    ParseWorld(String),
    Finished,
}

/// A `BundleRequest` taken by views.
pub enum RequestView {
    Read(Seq<char>),
    ParseWorld(Seq<char>),
    Finished,
}

impl View for BundleRequest {
    type V = RequestView;

    open spec fn view(&self) -> RequestView {
        match self {
            BundleRequest::Read(p) => RequestView::Read(p@),
            BundleRequest::ParseWorld(t) => RequestView::ParseWorld(t@),
            BundleRequest::Finished => RequestView::Finished,
        }
    }
}

/// What the caller hands the collector: the signal to begin, the outcome of
/// reading the requested file, or the outcome of parsing the requested world.
pub enum BundleReply {
    Begin,
    Bytes(Result<Vec<u8>, DownloadError>),
    World(Result<WorldDocument, String>),
}

/// A `BundleReply` taken by views (a world by the references it yields).
pub enum ReplyView {
    Begin,
    Bytes(Result<Seq<u8>, Seq<char>>),
    World(Result<Seq<Seq<char>>, Seq<char>>),
}

impl View for BundleReply {
    type V = ReplyView;

    open spec fn view(&self) -> ReplyView {
        match self {
            BundleReply::Begin => ReplyView::Begin,
            BundleReply::Bytes(Ok(b)) => ReplyView::Bytes(Ok(b@)),
            BundleReply::Bytes(Err(e)) => ReplyView::Bytes(Err(e@)),
            BundleReply::World(parsed) => ReplyView::World(world_references_of(*parsed)),
        }
    }
}

/// The state of a collection: the normalised path of the entry's file, the
/// archive name, the files fetched so far, the stack of things still to fetch
/// (its last element comes next), the stage, and the references found in each
/// fetched file.
pub struct CollectorView {
    pub root: Seq<char>,
    pub archive: Seq<char>,
    pub files: Map<Seq<char>, Seq<u8>>,
    pub pending: Seq<PendingView>,
    pub stage: StageView,
    pub references: Map<Seq<char>, Seq<Seq<char>>>,
}

/// The kinds of file that bundling looks into.
pub enum FileKind {
    World,
    TiledXml,
    Plain,
}

/// A file's kind by its extension in ASCII lower case: `world`, then `tmx` or
/// `tsx`, then everything else.
pub open spec fn file_kind(p: Seq<char>) -> FileKind {
    match path_extension(p) {
        Some(e) => {
            let l = ascii_lower_seq(e);
            if l == "world"@ {
                FileKind::World
            } else if l == "tmx"@ || l == "tsx"@ {
                FileKind::TiledXml
            } else {
                FileKind::Plain
            }
        },
        None => FileKind::Plain,
    }
}

/// A path that normalisation leaves as it is.
pub open spec fn is_normal(p: Seq<char>) -> bool {
    normalized_path(p) == Ok::<Seq<char>, Seq<char>>(p)
}

/// The path that a pending item names, or the error of resolving it.
pub open spec fn pending_target(item: PendingView) -> Result<Seq<char>, Seq<char>> {
    match item {
        PendingView::Resolved(q) => Ok(q),
        PendingView::Reference(b, r) => resolved_reference(b, r),
    }
}

/// Pops items off `pending` until one names a file not in `files`: that path
/// (or `None` when the stack runs out, or the first resolution error), with
/// what is left of the stack.
pub open spec fn drain(files: Map<Seq<char>, Seq<u8>>, pending: Seq<PendingView>) -> (
    Result<Option<Seq<char>>, Seq<char>>,
    Seq<PendingView>,
)
    decreases pending.len(),
{
    if pending.len() == 0 {
        (Ok(None), pending)
    } else {
        let rest = pending.drop_last();
        match pending_target(pending.last()) {
            Err(e) => (Err(e), rest),
            Ok(q) => if files.contains_key(q) {
                drain(files, rest)
            } else {
                (Ok(Some(q)), rest)
            },
        }
    }
}

/// The state with a new stage and stack.
pub open spec fn restaged(v: CollectorView, pending: Seq<PendingView>, stage: StageView) -> CollectorView {
    CollectorView {
        root: v.root,
        archive: v.archive,
        files: v.files,
        pending: pending,
        stage: stage,
        references: v.references,
    }
}

/// What moving on to the next file to fetch gives: a request to read it,
/// `Finished` when nothing is left, or the first resolution error.
pub open spec fn settled(v: CollectorView) -> (Result<RequestView, Seq<char>>, CollectorView) {
    let (r, rest) = drain(v.files, v.pending);
    match r {
        Err(e) => (Err(e), restaged(v, rest, StageView::Stopped)),
        Ok(None) => (Ok(RequestView::Finished), restaged(v, rest, StageView::Finished)),
        Ok(Some(q)) => (Ok(RequestView::Read(q)), restaged(v, rest, StageView::AwaitBytes(q))),
    }
}

/// The references of `base` pushed so that the first comes off the stack
/// first, and recorded as the references of `base`.
pub open spec fn with_references(v: CollectorView, base: Seq<char>, refs: Seq<Seq<char>>) -> CollectorView {
    CollectorView {
        root: v.root,
        archive: v.archive,
        files: v.files,
        pending: v.pending + Seq::new(
            refs.len(),
            |i: int| PendingView::Reference(base, refs[refs.len() - 1 - i]),
        ),
        stage: v.stage,
        references: v.references.insert(base, refs),
    }
}

/// The state with the file `q` added.
pub open spec fn with_file(v: CollectorView, q: Seq<char>, b: Seq<u8>) -> CollectorView {
    CollectorView {
        root: v.root,
        archive: v.archive,
        files: v.files.insert(q, b),
        pending: v.pending,
        stage: v.stage,
        references: v.references,
    }
}

/// Whether `reply` is the kind of reply that the stage waits for.
pub open spec fn reply_fits(stage: StageView, reply: ReplyView) -> bool {
    match stage {
        StageView::Start => reply is Begin,
        StageView::AwaitBytes(_) => reply is Bytes,
        StageView::AwaitWorld(_) => reply is World,
        _ => false,
    }
}

/// One step of a collection: the request (or error) that a fitting reply leads
/// to, and the state after it. A read file is added; a world file is then
/// handed out for parsing, a `.tmx` or `.tsx` file is searched for references,
/// and the references found are queued before moving on.
pub open spec fn advanced(v: CollectorView, reply: ReplyView) -> (Result<RequestView, Seq<char>>, CollectorView) {
    match (v.stage, reply) {
        (StageView::AwaitBytes(q), ReplyView::Bytes(Err(e))) => (Err(e), restaged(v, v.pending, StageView::Stopped)),
        (StageView::AwaitBytes(q), ReplyView::Bytes(Ok(b))) => {
            let w = with_file(v, q, b);
            match file_kind(q) {
                FileKind::Plain => settled(with_references(w, q, Seq::empty())),
                FileKind::World => match decoded_text(q, b) {
                    Ok(t) => (Ok(RequestView::ParseWorld(t)), restaged(w, w.pending, StageView::AwaitWorld(q))),
                    Err(e) => (Err(e), restaged(w, w.pending, StageView::Stopped)),
                },
                FileKind::TiledXml => match decoded_text(q, b) {
                    Ok(t) => match tiled_xml_references(t) {
                        Ok(refs) => settled(with_references(w, q, refs)),
                        Err(e) => (Err(e), restaged(w, w.pending, StageView::Stopped)),
                    },
                    Err(e) => (Err(e), restaged(w, w.pending, StageView::Stopped)),
                },
            }
        },
        (StageView::AwaitWorld(q), ReplyView::World(Err(e))) => (Err(e), restaged(v, v.pending, StageView::Stopped)),
        (StageView::AwaitWorld(q), ReplyView::World(Ok(refs))) => settled(with_references(v, q, refs)),
        _ => settled(v),
    }
}

/// A reference found in `p` is taken care of: it is still on the stack, or it
/// resolves to a fetched file or to the file being fetched.
pub open spec fn reference_handled(v: CollectorView, p: Seq<char>, r: Seq<char>) -> bool {
    ||| exists|i: int| 0 <= i < v.pending.len() && v.pending[i] == PendingView::Reference(p, r)
    ||| (resolved_reference(p, r) matches Ok(q) && (v.files.contains_key(q) || v.stage == StageView::AwaitBytes(q)))
}

/// The recorded references of `p` are those its content holds: for a `.tmx` or
/// `.tsx` file those found in its UTF-8 text, for a plain file none (those of a
/// world come from its parse).
pub open spec fn references_match_content(v: CollectorView, p: Seq<char>) -> bool {
    match file_kind(p) {
        FileKind::TiledXml => decoded_text(p, v.files[p]) matches Ok(t) && tiled_xml_references(t) == Ok::<
            Seq<Seq<char>>,
            Seq<char>,
        >(v.references[p]),
        FileKind::Plain => v.references[p].len() == 0,
        FileKind::World => true,
    }
}

/// What holds of every live collection: fetched and queued paths are
/// normalised; the file being fetched is not fetched yet; every fetched file but
/// a world awaiting its parse has its references recorded, and those match its
/// content; every recorded reference is taken care of; and the entry's own
/// file is fetched, queued or being fetched.
pub open spec fn live_collection(v: CollectorView) -> bool {
    &&& forall|p: Seq<char>| #[trigger] v.files.contains_key(p) ==> is_normal(p)
    &&& forall|i: int| 0 <= i < v.pending.len() ==> (#[trigger] v.pending[i] matches PendingView::Resolved(q) ==> is_normal(q))
    &&& match v.stage {
        StageView::AwaitBytes(q) => is_normal(q) && !v.files.contains_key(q),
        StageView::AwaitWorld(q) => v.files.contains_key(q) && !v.references.contains_key(q) && file_kind(q) == FileKind::World,
        StageView::Finished => v.pending.len() == 0,
        StageView::Start => true,
        StageView::Stopped => false,
    }
    &&& forall|p: Seq<char>| #[trigger] v.references.contains_key(p) ==> v.files.contains_key(p) && references_match_content(v, p)
    &&& forall|p: Seq<char>| #[trigger] v.files.contains_key(p) && !v.references.contains_key(p) ==> v.stage == StageView::AwaitWorld(p)
    &&& forall|p: Seq<char>, i: int| #[trigger] v.references.contains_key(p) && 0 <= i < v.references[p].len()
        ==> reference_handled(v, p, #[trigger] v.references[p][i])
    &&& (v.files.contains_key(v.root) || v.stage == StageView::AwaitBytes(v.root) || exists|i: int|
        0 <= i < v.pending.len() && v.pending[i] == PendingView::Resolved(v.root))
}

/// The bundle of a map or world: the name of its archive and its files in path order.
#[derive(Clone, Debug)]
pub struct DownloadBundle {
    pub archive_name: String,
    pub files: Vec<BundleFile>,
}

impl DownloadBundle {
    /// The paths of the bundle's files, in path order.
    pub fn paths(&self) -> (r: Vec<String>)
        ensures
            string_views(r@) == self.files@.map_values(|f: BundleFile| f.path@),
    {
        let mut r: Vec<String> = Vec::new();
        let mut i: usize = 0;
        while i < self.files.len()
            invariant
                i <= self.files.len(),
                string_views(r@) =~= self.files@.map_values(|f: BundleFile| f.path@).take(i as int),
            decreases self.files.len() - i,
        {
            let ghost prev = string_views(r@);
            r.push(self.files[i].path.clone());
            assert(string_views(r@) =~= prev.push(self.files@[i as int].path@));
            assert(self.files@.map_values(|f: BundleFile| f.path@).take(i + 1) =~= self.files@.map_values(
                |f: BundleFile| f.path@,
            ).take(i as int).push(self.files@[i as int].path@));
            i = i + 1;
        }
        assert(self.files@.map_values(|f: BundleFile| f.path@).take(self.files.len() as int)
            =~= self.files@.map_values(|f: BundleFile| f.path@));
        r
    }
}

/// The outcome of a step, taken by views.
pub open spec fn request_outcome(r: Result<BundleRequest, DownloadError>) -> Result<RequestView, Seq<char>> {
    match r {
        Ok(q) => Ok(q@),
        Err(e) => Err(e@),
    }
}

/// A collection not yet begun: only the entry's own file is queued.
pub open spec fn initial_collection(root: Seq<char>, archive: Seq<char>) -> CollectorView {
    CollectorView {
        root: root,
        archive: archive,
        files: Map::empty(),
        pending: seq![PendingView::Resolved(root)],
        stage: StageView::Start,
        references: Map::empty(),
    }
}

/// Collects the files of one map or world for download. The caller drives it:
/// it reads each file the collector asks for, parses each world file it hands
/// out, and passes the outcome back with `advance`.
pub struct BundleCollector {
    root: Ghost<Seq<char>>,
    archive_name: String,
    files: Vec<BundleFile>,
    pending: Vec<PendingRef>,
    stage: Stage,
    references: Ghost<Map<Seq<char>, Seq<Seq<char>>>>,
}

impl View for BundleCollector {
    type V = CollectorView;

    closed spec fn view(&self) -> CollectorView {
        CollectorView {
            root: self.root@,
            archive: self.archive_name@,
            files: file_map(self.files@),
            pending: self.pending@.map_values(|p: PendingRef| p@),
            stage: self.stage@,
            references: self.references@,
        }
    }
}

/// The kind of the file `path`, from its extension.
pub fn kind_of_path(path: &str) -> (k: FileKind)
    ensures
        k == file_kind(path@),
{
    match extension_of(path) {
        Some(e) => {
            let world = String::from_str("world");
            let tmx = String::from_str("tmx");
            let tsx = String::from_str("tsx");
            if e.eq(&world) {
                FileKind::World
            } else if e.eq(&tmx) || e.eq(&tsx) {
                FileKind::TiledXml
            } else {
                FileKind::Plain
            }
        },
        None => FileKind::Plain,
    }
}

impl BundleCollector {
    /// Whether the collector's own bookkeeping is in order (its files are kept
    /// in path order).
    pub closed spec fn well_kept(&self) -> bool {
        sorted_files(self.files@)
    }

    /// Starts collecting the files of `entry`: its path is normalised, and it
    /// is the first file to fetch.
    pub fn new(entry: &MapManifestEntry) -> (r: Result<BundleCollector, DownloadError>)
        ensures
            match r {
                Ok(c) => {
                    &&& normalized_path(entry.path@) == Ok::<Seq<char>, Seq<char>>(c@.root)
                    &&& c@ == initial_collection(c@.root, archive_name_for(*entry))
                    &&& c.well_kept()
                    &&& live_collection(c@)
                },
                Err(e) => normalized_path(entry.path@) == Err::<Seq<char>, Seq<char>>(e@),
            },
    {
        let root = match normalize_relative_path(entry.path.as_str()) {
            Ok(p) => p,
            Err(e) => return Err(e),
        };
        proof {
            lemma_normalize_idempotent(entry.path@);
        }
        let ghost root_view = root@;
        let mut pending: Vec<PendingRef> = Vec::new();
        pending.push(PendingRef::Resolved(root));
        let c = BundleCollector {
            root: Ghost(root_view),
            archive_name: bundle_archive_name(entry),
            files: Vec::new(),
            pending,
            stage: Stage::Start,
            references: Ghost(Map::empty()),
        };
        assert(c@.pending =~= seq![PendingView::Resolved(root_view)]);
        assert(c@.files =~= Map::<Seq<char>, Seq<u8>>::empty());
        assert(c@.pending[0] == PendingView::Resolved(root_view));
        Ok(c)
    }

    /// Whether the collection is done.
    pub fn is_finished(&self) -> (b: bool)
        ensures
            b == (self@.stage is Finished),
    {
        match self.stage {
            Stage::Finished => true,
            _ => false,
        }
    }

    /// Pops the stack until it names a file not fetched yet, and asks for it;
    /// reports `Finished` when the stack runs out.
    fn settle(&mut self) -> (r: Result<BundleRequest, DownloadError>)
        requires
            old(self).well_kept(),
            live_collection(restaged(old(self)@, old(self)@.pending, StageView::Start)),
        ensures
            final(self).well_kept(),
            (request_outcome(r), final(self)@) == settled(old(self)@),
            r is Ok ==> live_collection(final(self)@),
    {
        let ghost v0 = self@;
        loop
            invariant
                self.well_kept(),
                old(self)@ == v0,
                self@.root == v0.root,
                self@.archive == v0.archive,
                self@.files == v0.files,
                self@.references == v0.references,
                drain(self@.files, self@.pending) == drain(v0.files, v0.pending),
                live_collection(restaged(self@, self@.pending, StageView::Start)),
            decreases self.pending.len(),
        {
            let ghost v = self@;
            let ghost vs = restaged(v, v.pending, StageView::Start);
            match self.pending.pop() {
                None => {
                    self.stage = Stage::Finished;
                    proof {
                        assert(v.pending.len() == 0);
                        assert(self@ == restaged(v0, v.pending, StageView::Finished));
                        assert(drain(v.files, v.pending) == (Ok::<Option<Seq<char>>, Seq<char>>(None), v.pending));
                        assert(drain(v0.files, v0.pending) == (Ok::<Option<Seq<char>>, Seq<char>>(None), v.pending));
                        assert(settled(v0).1 == self@);
                        assert(settled(v0).0 == Ok::<RequestView, Seq<char>>(RequestView::Finished));
                    }
                    return Ok(BundleRequest::Finished);
                },
                Some(item) => {
                    let ghost top = item@;
                    let ghost rest = v.pending.drop_last();
                    assert(self@.pending =~= rest);
                    assert(top == v.pending.last());
                    let target = match item {
                        PendingRef::Resolved(q) => q,
                        PendingRef::Reference { base, reference } => {
                            match resolve_reference_path(base.as_str(), reference.as_str()) {
                                Ok(q) => {
                                    proof {
                                        lemma_resolved_reference_is_normal(base@, reference@);
                                    }
                                    q
                                },
                                Err(e) => {
                                    self.stage = Stage::Stopped;
                                    proof {
                                        assert(self@ == restaged(v0, rest, StageView::Stopped));
                                        assert(pending_target(top) == Err::<Seq<char>, Seq<char>>(e@));
                                        assert(drain(v.files, v.pending) == (
                                            Err::<Option<Seq<char>>, Seq<char>>(e@),
                                            rest,
                                        ));
                                    }
                                    return Err(e);
                                },
                            }
                        },
                    };
                    assert(pending_target(top) == Ok::<Seq<char>, Seq<char>>(target@));
                    assert(is_normal(target@)) by {
                        if top is Resolved {
                            assert(vs.pending[vs.pending.len() - 1] == top);
                        }
                    }
                    if contains_path(&self.files, &target) {
                        proof {
                            assert(v.files.contains_key(target@));
                            assert(drain(v.files, v.pending) == drain(v.files, rest));
                            self.lemma_pop_keeps_live(v, target@);
                        }
                    } else {
                        let ghost q = target@;
                        self.stage = Stage::AwaitBytes(target.clone());
                        proof {
                            assert(!v.files.contains_key(q));
                            assert(self@ == restaged(v0, rest, StageView::AwaitBytes(q)));
                            assert(drain(v.files, v.pending) == (Ok::<Option<Seq<char>>, Seq<char>>(Some(q)), rest));
                            self.lemma_pop_awaits_live(v, q);
                        }
                        return Ok(BundleRequest::Read(target));
                    }
                },
            }
        }
    }

    /// Queues the references found in `base`, the first on top, and records them.
    fn record(&mut self, base: String, refs: Vec<String>)
        requires
            old(self).well_kept(),
        ensures
            final(self).well_kept(),
            final(self)@ == with_references(old(self)@, base@, string_views(refs@)),
    {
        let ghost v0 = self@;
        let ghost rv = string_views(refs@);
        let n = refs.len();
        let mut k: usize = n;
        let mut rest = refs;
        while k > 0
            invariant
                k <= n == rv.len(),
                rest@.len() == k,
                forall|i: int| 0 <= i < k ==> #[trigger] rest@[i]@ == rv[i],
                self.well_kept(),
                self@.root == v0.root,
                self@.archive == v0.archive,
                self@.files == v0.files,
                self@.stage == v0.stage,
                self@.references == v0.references,
                self@.pending =~= v0.pending + Seq::new(
                    (n - k) as nat,
                    |i: int| PendingView::Reference(base@, rv[n - 1 - i]),
                ),
            decreases k,
        {
            let r = rest.pop().unwrap();
            assert(r@ == rv[k - 1]);
            let ghost before = self@.pending;
            self.pending.push(PendingRef::Reference { base: base.clone(), reference: r });
            k = k - 1;
            assert(self@.pending =~= before.push(PendingView::Reference(base@, rv[n - 1 - (n - k - 1)])));
        }
        self.references = Ghost(self.references@.insert(base@, rv));
    }

    /// Hands the collector the reply to its last request, and gets the next
    /// request (or the error that ends the collection).
    pub fn advance(&mut self, reply: BundleReply) -> (r: Result<BundleRequest, DownloadError>)
        requires
            old(self).well_kept(),
            live_collection(old(self)@),
            reply_fits(old(self)@.stage, reply@),
        ensures
            final(self).well_kept(),
            (request_outcome(r), final(self)@) == advanced(old(self)@, reply@),
            r is Ok ==> live_collection(final(self)@),
    {
        let ghost v0 = self@;
        match reply {
            BundleReply::Begin => {
                assert(v0.stage is Start);
                assert(restaged(v0, v0.pending, StageView::Start) == v0);
                self.settle()
            },
            BundleReply::Bytes(Err(e)) => {
                self.stage = Stage::Stopped;
                Err(e)
            },
            BundleReply::Bytes(Ok(bytes)) => {
                let q = match &self.stage {
                    Stage::AwaitBytes(q) => q.clone(),
                    _ => {
                        proof {
                            assert(false);
                        }
                        return Err(DownloadError::new(String::new()));
                    },
                };
                let kind = kind_of_path(q.as_str());
                let copy = copy_bytes(&bytes);
                insert_file(&mut self.files, BundleFile { path: q.clone(), bytes: copy });
                let ghost w = with_file(v0, q@, bytes@);
                assert(self@ == w);
                match kind {
                    FileKind::Plain => {
                        let none: Vec<String> = Vec::new();
                        assert(string_views(none@) =~= Seq::<Seq<char>>::empty());
                        self.record(q, none);
                        proof {
                            lemma_bytes_keep_live(v0, q@, bytes@, Seq::empty());
                        }
                        self.settle()
                    },
                    FileKind::World => {
                        match decode_text_file(q.as_str(), bytes.as_slice()) {
                            Ok(text) => {
                                self.stage = Stage::AwaitWorld(q);
                                proof {
                                    lemma_world_wait_live(v0, self@.stage->AwaitWorld_0, bytes@);
                                }
                                Ok(BundleRequest::ParseWorld(text))
                            },
                            Err(e) => {
                                self.stage = Stage::Stopped;
                                Err(e)
                            },
                        }
                    },
                    FileKind::TiledXml => {
                        match decode_text_file(q.as_str(), bytes.as_slice()) {
                            Ok(text) => match xml_references(text.as_str()) {
                                Ok(refs) => {
                                    let ghost rv = string_views(refs@);
                                    self.record(q, refs);
                                    proof {
                                        lemma_bytes_keep_live(v0, v0.stage->AwaitBytes_0, bytes@, rv);
                                    }
                                    self.settle()
                                },
                                Err(e) => {
                                    self.stage = Stage::Stopped;
                                    Err(e)
                                },
                            },
                            Err(e) => {
                                self.stage = Stage::Stopped;
                                Err(e)
                            },
                        }
                    },
                }
            },
            BundleReply::World(parsed) => {
                let q = match &self.stage {
                    Stage::AwaitWorld(q) => q.clone(),
                    _ => {
                        proof {
                            assert(false);
                        }
                        return Err(DownloadError::new(String::new()));
                    },
                };
                match world_references(parsed) {
                    Ok(refs) => {
                        let ghost rv = string_views(refs@);
                        self.record(q, refs);
                        proof {
                            lemma_world_keeps_live(v0, rv);
                        }
                        self.settle()
                    },
                    Err(e) => {
                        self.stage = Stage::Stopped;
                        Err(e)
                    },
                }
            },
        }
    }

    /// The bundle, once the collection is done: the archive name and the
    /// fetched files in path order.
    pub fn finish(self) -> (b: DownloadBundle)
        requires
            self.well_kept(),
            self@.stage is Finished,
        ensures
            b.archive_name@ == self@.archive,
            sorted_files(b.files@),
            file_map(b.files@) == self@.files,
    {
        DownloadBundle { archive_name: self.archive_name, files: self.files }
    }

    proof fn lemma_pop_keeps_live(&self, v: CollectorView, q: Seq<char>)
        requires
            v.pending.len() > 0,
            live_collection(restaged(v, v.pending, StageView::Start)),
            pending_target(v.pending.last()) == Ok::<Seq<char>, Seq<char>>(q),
            v.files.contains_key(q),
            self@ == restaged(v, v.pending.drop_last(), v.stage),
        ensures
            live_collection(restaged(self@, self@.pending, StageView::Start)),
    {
        let vs = restaged(v, v.pending, StageView::Start);
        let ws = restaged(self@, self@.pending, StageView::Start);
        let rest = v.pending.drop_last();
        assert forall|i: int| 0 <= i < ws.pending.len() implies (#[trigger] ws.pending[i] matches PendingView::Resolved(
            q,
        ) ==> is_normal(q)) by {
            assert(ws.pending[i] == vs.pending[i]);
        }
        assert forall|p: Seq<char>, i: int| #[trigger] ws.references.contains_key(p) && 0 <= i < ws.references[p].len()
            implies reference_handled(ws, p, #[trigger] ws.references[p][i]) by {
            let r = ws.references[p][i];
            assert(reference_handled(vs, p, r));
            if exists|k: int| 0 <= k < vs.pending.len() && vs.pending[k] == PendingView::Reference(p, r) {
                let k = choose|k: int| 0 <= k < vs.pending.len() && vs.pending[k] == PendingView::Reference(p, r);
                if k < rest.len() {
                    assert(ws.pending[k] == PendingView::Reference(p, r));
                } else {
                    assert(vs.pending.last() == PendingView::Reference(p, r));
                }
            }
        }
        if !ws.files.contains_key(ws.root) {
            let k = choose|k: int| 0 <= k < vs.pending.len() && vs.pending[k] == PendingView::Resolved(vs.root);
            if k < rest.len() {
                assert(ws.pending[k] == PendingView::Resolved(ws.root));
            } else {
                assert(pending_target(vs.pending.last()) == Ok::<Seq<char>, Seq<char>>(vs.root));
            }
        }
    }

    #[verifier::spinoff_prover]
    proof fn lemma_pop_awaits_live(&self, v: CollectorView, q: Seq<char>)
        requires
            v.pending.len() > 0,
            live_collection(restaged(v, v.pending, StageView::Start)),
            pending_target(v.pending.last()) == Ok::<Seq<char>, Seq<char>>(q),
            !v.files.contains_key(q),
            is_normal(q),
            self@ == restaged(v, v.pending.drop_last(), StageView::AwaitBytes(q)),
        ensures
            live_collection(self@),
    {
        let vs = restaged(v, v.pending, StageView::Start);
        let ws = self@;
        let rest = v.pending.drop_last();
        assert forall|i: int| 0 <= i < ws.pending.len() implies (#[trigger] ws.pending[i] matches PendingView::Resolved(
            q,
        ) ==> is_normal(q)) by {
            assert(ws.pending[i] == vs.pending[i]);
        }
        assert forall|p: Seq<char>, i: int| #[trigger] ws.references.contains_key(p) && 0 <= i < ws.references[p].len()
            implies reference_handled(ws, p, #[trigger] ws.references[p][i]) by {
            let r = ws.references[p][i];
            assert(reference_handled(vs, p, r));
            if exists|k: int| 0 <= k < vs.pending.len() && vs.pending[k] == PendingView::Reference(p, r) {
                let k = choose|k: int| 0 <= k < vs.pending.len() && vs.pending[k] == PendingView::Reference(p, r);
                if k < rest.len() {
                    assert(ws.pending[k] == PendingView::Reference(p, r));
                } else {
                    assert(vs.pending.last() == PendingView::Reference(p, r));
                }
            }
        }
        if !ws.files.contains_key(ws.root) && ws.stage != StageView::AwaitBytes(ws.root) {
            let k = choose|k: int| 0 <= k < vs.pending.len() && vs.pending[k] == PendingView::Resolved(vs.root);
            if k < rest.len() {
                assert(ws.pending[k] == PendingView::Resolved(ws.root));
            } else {
                assert(pending_target(vs.pending.last()) == Ok::<Seq<char>, Seq<char>>(vs.root));
            }
        }
        assert(ws.files == vs.files);
        assert(forall|p: Seq<char>| #[trigger] ws.files.contains_key(p) ==> is_normal(p));
        assert(is_normal(q) && !ws.files.contains_key(q));
        assert forall|p: Seq<char>| #[trigger] ws.references.contains_key(p) implies ws.files.contains_key(p)
            && references_match_content(ws, p) by {
            assert(references_match_content(vs, p));
            assert(ws.files == vs.files && ws.references == vs.references);
        }
    }
}

/// A copy of `b`.
pub(crate) fn copy_bytes(b: &Vec<u8>) -> (r: Vec<u8>)
    ensures
        r@ == b@,
{
    let mut r: Vec<u8> = Vec::new();
    let mut i: usize = 0;
    while i < b.len()
        invariant
            i <= b.len(),
            r@ == b@.take(i as int),
        decreases b.len() - i,
    {
        r.push(b[i]);
        i = i + 1;
        assert(r@ =~= b@.take(i as int));
    }
    assert(b@.take(b.len() as int) =~= b@);
    r
}

proof fn lemma_bytes_keep_live(v: CollectorView, q: Seq<char>, b: Seq<u8>, refs: Seq<Seq<char>>)
    requires
        live_collection(v),
        v.stage == StageView::AwaitBytes(q),
        file_kind(q) == FileKind::Plain ==> refs.len() == 0,
        file_kind(q) != FileKind::World,
        file_kind(q) == FileKind::TiledXml ==> (decoded_text(q, b) matches Ok(t) && tiled_xml_references(t)
            == Ok::<Seq<Seq<char>>, Seq<char>>(refs)),
    ensures
        live_collection(
            restaged(
                with_references(with_file(v, q, b), q, refs),
                with_references(with_file(v, q, b), q, refs).pending,
                StageView::Start,
            ),
        ),
{
    let w = with_references(with_file(v, q, b), q, refs);
    let ws = restaged(w, w.pending, StageView::Start);
    let n = refs.len();
    assert forall|i: int| 0 <= i < ws.pending.len() implies (#[trigger] ws.pending[i] matches PendingView::Resolved(
        x,
    ) ==> is_normal(x)) by {
        if i < v.pending.len() {
            assert(ws.pending[i] == v.pending[i]);
        }
    }
    assert forall|p: Seq<char>| #[trigger] ws.references.contains_key(p) implies ws.files.contains_key(p)
        && references_match_content(ws, p) by {
        if p != q {
            assert(references_match_content(v, p));
            assert(ws.files[p] == v.files[p]);
            assert(ws.references[p] == v.references[p]);
        } else {
            assert(ws.files[q] == b);
            assert(ws.references[q] == refs);
        }
    }
    assert forall|p: Seq<char>, i: int| #[trigger] ws.references.contains_key(p) && 0 <= i < ws.references[p].len()
        implies reference_handled(ws, p, #[trigger] ws.references[p][i]) by {
        let r = ws.references[p][i];
        if p == q {
            let k = v.pending.len() + (n - 1 - i);
            assert(ws.pending[k] == PendingView::Reference(q, refs[n - 1 - (n - 1 - i)]));
        } else {
            assert(ws.references[p] == v.references[p]);
            assert(reference_handled(v, p, r));
            if exists|k: int| 0 <= k < v.pending.len() && v.pending[k] == PendingView::Reference(p, r) {
                let k = choose|k: int| 0 <= k < v.pending.len() && v.pending[k] == PendingView::Reference(p, r);
                assert(ws.pending[k] == PendingView::Reference(p, r));
            }
        }
    }
    if !ws.files.contains_key(ws.root) {
        let k = choose|k: int| 0 <= k < v.pending.len() && v.pending[k] == PendingView::Resolved(v.root);
        assert(ws.pending[k] == PendingView::Resolved(ws.root));
    }
}

proof fn lemma_world_wait_live(v: CollectorView, q: Seq<char>, b: Seq<u8>)
    requires
        live_collection(v),
        v.stage == StageView::AwaitBytes(q),
        file_kind(q) == FileKind::World,
    ensures
        live_collection(restaged(with_file(v, q, b), v.pending, StageView::AwaitWorld(q))),
{
    let ws = restaged(with_file(v, q, b), v.pending, StageView::AwaitWorld(q));
    assert(!v.references.contains_key(q));
    assert forall|p: Seq<char>| #[trigger] ws.references.contains_key(p) implies ws.files.contains_key(p)
        && references_match_content(ws, p) by {
        assert(references_match_content(v, p));
        assert(p != q);
        assert(ws.files[p] == v.files[p]);
    }
    assert forall|p: Seq<char>, i: int| #[trigger] ws.references.contains_key(p) && 0 <= i < ws.references[p].len()
        implies reference_handled(ws, p, #[trigger] ws.references[p][i]) by {
        let r = ws.references[p][i];
        assert(reference_handled(v, p, r));
    }
}

proof fn lemma_world_keeps_live(v: CollectorView, refs: Seq<Seq<char>>)
    requires
        live_collection(v),
        v.stage is AwaitWorld,
    ensures
        live_collection(
            restaged(
                with_references(v, v.stage->AwaitWorld_0, refs),
                with_references(v, v.stage->AwaitWorld_0, refs).pending,
                StageView::Start,
            ),
        ),
{
    let q = v.stage->AwaitWorld_0;
    let w = with_references(v, q, refs);
    let ws = restaged(w, w.pending, StageView::Start);
    let n = refs.len();
    assert forall|i: int| 0 <= i < ws.pending.len() implies (#[trigger] ws.pending[i] matches PendingView::Resolved(
        x,
    ) ==> is_normal(x)) by {
        if i < v.pending.len() {
            assert(ws.pending[i] == v.pending[i]);
        }
    }
    assert forall|p: Seq<char>| #[trigger] ws.references.contains_key(p) implies ws.files.contains_key(p)
        && references_match_content(ws, p) by {
        if p != q {
            assert(references_match_content(v, p));
            assert(ws.references[p] == v.references[p]);
        }
    }
    assert forall|p: Seq<char>| #[trigger] ws.files.contains_key(p) && !ws.references.contains_key(p) implies ws.stage
        == StageView::AwaitWorld(p) by {
        assert(v.stage == StageView::AwaitWorld(p));
    }
    assert forall|p: Seq<char>, i: int| #[trigger] ws.references.contains_key(p) && 0 <= i < ws.references[p].len()
        implies reference_handled(ws, p, #[trigger] ws.references[p][i]) by {
        let r = ws.references[p][i];
        if p == q {
            let k = v.pending.len() + (n - 1 - i);
            assert(ws.pending[k] == PendingView::Reference(q, refs[n - 1 - (n - 1 - i)]));
        } else {
            assert(ws.references[p] == v.references[p]);
            assert(reference_handled(v, p, r));
            if exists|k: int| 0 <= k < v.pending.len() && v.pending[k] == PendingView::Reference(p, r) {
                let k = choose|k: int| 0 <= k < v.pending.len() && v.pending[k] == PendingView::Reference(p, r);
                assert(ws.pending[k] == PendingView::Reference(p, r));
            }
        }
    }
    if !ws.files.contains_key(ws.root) {
        let k = choose|k: int| 0 <= k < v.pending.len() && v.pending[k] == PendingView::Resolved(v.root);
        assert(ws.pending[k] == PendingView::Resolved(ws.root));
    }
}

/// Once a collection is finished its files are self-contained: the entry's own
/// file is among them, every path is normalised, every file has its references
/// recorded (for `.tmx` and `.tsx` files, exactly those its text holds), and
/// every recorded reference resolves to a file of the bundle.
pub proof fn lemma_finished_bundle_is_closed(v: CollectorView)
    requires
        live_collection(v),
        v.stage is Finished,
    ensures
        v.files.contains_key(v.root),
        forall|p: Seq<char>| #[trigger] v.files.contains_key(p) ==> is_normal(p) && v.references.contains_key(p)
            && references_match_content(v, p),
        forall|p: Seq<char>, i: int| #[trigger] v.references.contains_key(p) && 0 <= i < v.references[p].len()
            ==> (resolved_reference(p, #[trigger] v.references[p][i]) matches Ok(q) && v.files.contains_key(q)),
{
    assert forall|p: Seq<char>, i: int| #[trigger] v.references.contains_key(p) && 0 <= i < v.references[p].len()
        implies (resolved_reference(p, #[trigger] v.references[p][i]) matches Ok(q) && v.files.contains_key(q)) by {
        assert(reference_handled(v, p, v.references[p][i]));
    }
    assert forall|p: Seq<char>| #[trigger] v.files.contains_key(p) implies is_normal(p) && v.references.contains_key(p)
        && references_match_content(v, p) by {
        if !v.references.contains_key(p) {
            assert(v.stage == StageView::AwaitWorld(p));
        }
    }
}

/// Whether a collection reaches `q`: it is the entry's own file, or a
/// recorded reference of a fetched file resolves to it.
pub open spec fn reaches(v: CollectorView, q: Seq<char>) -> bool {
    ||| q == v.root
    ||| exists|p: Seq<char>, i: int|
        #[trigger] v.references.contains_key(p) && 0 <= i < v.references[p].len() && resolved_reference(
            p,
            #[trigger] v.references[p][i],
        ) == Ok::<Seq<char>, Seq<char>>(q)
}

/// A collection that only ever touches what it reaches: every fetched file is
/// reached, the only resolved path queued is the entry's own file, every
/// queued reference is a recorded reference of a fetched file, and a file
/// being read is reached.
pub open spec fn touches_only_reached(v: CollectorView) -> bool {
    &&& forall|p: Seq<char>| #[trigger] v.files.contains_key(p) ==> reaches(v, p)
    &&& forall|i: int| 0 <= i < v.pending.len() ==> (#[trigger] v.pending[i] matches PendingView::Resolved(q) ==> q == v.root)
    &&& forall|i: int| 0 <= i < v.pending.len() ==> (#[trigger] v.pending[i] matches PendingView::Reference(b, r) ==> v.references.contains_key(b)
        && v.references[b].contains(r))
    &&& (v.stage matches StageView::AwaitBytes(q) ==> reaches(v, q))
}

/// The state `w` keeps everything `v` has fetched and recorded, and its entry.
pub open spec fn keeps(v: CollectorView, w: CollectorView) -> bool {
    &&& w.root == v.root
    &&& forall|p: Seq<char>| #[trigger] v.files.contains_key(p) ==> w.files.contains_key(p) && w.files[p] == v.files[p]
    &&& forall|p: Seq<char>| #[trigger] v.references.contains_key(p) ==> w.references.contains_key(p) && w.references[p]
        == v.references[p]
}

proof fn lemma_reaches_kept(v: CollectorView, w: CollectorView, q: Seq<char>)
    requires
        keeps(v, w),
        reaches(v, q),
    ensures
        reaches(w, q),
{
    if q != v.root {
        let (p, i) = choose|p: Seq<char>, i: int|
            #[trigger] v.references.contains_key(p) && 0 <= i < v.references[p].len() && resolved_reference(
                p,
                #[trigger] v.references[p][i],
            ) == Ok::<Seq<char>, Seq<char>>(q);
        assert(w.references.contains_key(p) && w.references[p][i] == v.references[p][i]);
    }
}

proof fn lemma_target_reached(v: CollectorView, item: PendingView, q: Seq<char>)
    requires
        item matches PendingView::Resolved(x) ==> x == v.root,
        item matches PendingView::Reference(b, r) ==> v.references.contains_key(b) && v.references[b].contains(r),
        pending_target(item) == Ok::<Seq<char>, Seq<char>>(q),
    ensures
        reaches(v, q),
{
    match item {
        PendingView::Resolved(x) => {},
        PendingView::Reference(b, r) => {
            let i = choose|i: int| 0 <= i < v.references[b].len() && v.references[b][i] == r;
            assert(v.references.contains_key(b) && 0 <= i < v.references[b].len() && resolved_reference(
                b,
                v.references[b][i],
            ) == Ok::<Seq<char>, Seq<char>>(q));
        },
    }
}

proof fn lemma_drain_shape(files: Map<Seq<char>, Seq<u8>>, pending: Seq<PendingView>)
    ensures
        drain(files, pending).1.len() <= pending.len(),
        drain(files, pending).1 == pending.take(drain(files, pending).1.len() as int),
        drain(files, pending).0 matches Ok(Some(q)) ==> drain(files, pending).1.len() < pending.len()
            && pending_target(pending[drain(files, pending).1.len() as int]) == Ok::<Seq<char>, Seq<char>>(q)
            && !files.contains_key(q),
    decreases pending.len(),
{
    if pending.len() > 0 {
        let rest = pending.drop_last();
        lemma_drain_shape(files, rest);
        assert(rest =~= pending.take(rest.len() as int));
        let d = drain(files, rest).1;
        assert(rest.take(d.len() as int) =~= pending.take(d.len() as int));
        if d.len() < rest.len() {
            assert(rest[d.len() as int] == pending[d.len() as int]);
        }
    } else {
        assert(pending.take(0) =~= pending);
    }
}

proof fn lemma_settled_touches_only_reached(v: CollectorView)
    requires
        touches_only_reached(v),
    ensures
        touches_only_reached(settled(v).1),
        keeps(v, settled(v).1),
        settled(v).0 matches Ok(RequestView::Read(q)) ==> !settled(v).1.files.contains_key(q),
{
    lemma_drain_shape(v.files, v.pending);
    let (r, rest) = drain(v.files, v.pending);
    let w = settled(v).1;
    assert forall|i: int| 0 <= i < rest.len() implies rest[i] == v.pending[i] by {}
    assert forall|p: Seq<char>| #[trigger] w.files.contains_key(p) implies reaches(w, p) by {
        assert(reaches(v, p));
        lemma_reaches_kept(v, w, p);
    }
    assert forall|i: int| 0 <= i < w.pending.len() implies (#[trigger] w.pending[i] matches PendingView::Resolved(q)
        ==> q == w.root) by {
        assert(w.pending[i] == v.pending[i]);
    }
    assert forall|i: int| 0 <= i < w.pending.len() implies (#[trigger] w.pending[i] matches PendingView::Reference(
        b,
        r,
    ) ==> w.references.contains_key(b) && w.references[b].contains(r)) by {
        assert(w.pending[i] == v.pending[i]);
    }
    if let Ok(Some(q)) = r {
        let item = v.pending[rest.len() as int];
        lemma_target_reached(v, item, q);
        lemma_reaches_kept(v, w, q);
    }
}

/// What a step must keep: everything fetched and recorded, touching only
/// what is reached, and a read asked only of a reached file not yet fetched.
pub open spec fn step_keeps_reach(v: CollectorView, out: (Result<RequestView, Seq<char>>, CollectorView)) -> bool {
    &&& keeps(v, out.1)
    &&& touches_only_reached(out.1)
    &&& out.0 matches Ok(RequestView::Read(q)) ==> reaches(out.1, q) && !out.1.files.contains_key(q)
}

proof fn lemma_restaged_keeps_reach(v: CollectorView, w: CollectorView, stage: StageView)
    requires
        keeps(v, w),
        touches_only_reached(w),
        !(stage is AwaitBytes),
    ensures
        keeps(v, restaged(w, w.pending, stage)),
        touches_only_reached(restaged(w, w.pending, stage)),
{
    let x = restaged(w, w.pending, stage);
    assert forall|p: Seq<char>| #[trigger] x.files.contains_key(p) implies reaches(x, p) by {
        assert(reaches(w, p));
    }
}

proof fn lemma_settled_keeps_reach(v: CollectorView, x: CollectorView)
    requires
        keeps(v, x),
        touches_only_reached(x),
    ensures
        step_keeps_reach(v, settled(x)),
{
    lemma_settled_touches_only_reached(x);
    lemma_keeps_trans(v, x, settled(x).1);
}

#[verifier::spinoff_prover]
proof fn lemma_bytes_step_keeps_reach(v: CollectorView, q: Seq<char>, b: Seq<u8>)
    requires
        touches_only_reached(v),
        v.stage == StageView::AwaitBytes(q),
        !v.references.contains_key(q),
        !v.files.contains_key(q),
    ensures
        step_keeps_reach(v, advanced(v, ReplyView::Bytes(Ok(b)))),
{
    let w = with_file(v, q, b);
    assert(keeps(v, w));
    assert(reaches(v, q));
    assert forall|p: Seq<char>| #[trigger] w.files.contains_key(p) implies reaches(w, p) by {
        if p != q {
            assert(reaches(v, p));
        }
        lemma_reaches_kept(v, w, p);
    }
    assert forall|i: int| 0 <= i < w.pending.len() implies (#[trigger] w.pending[i] matches PendingView::Reference(
        b,
        r,
    ) ==> w.references.contains_key(b) && w.references[b].contains(r)) by {
        assert(w.pending[i] == v.pending[i]);
    }
    assert forall|i: int| 0 <= i < w.pending.len() implies (#[trigger] w.pending[i] matches PendingView::Resolved(y)
        ==> y == w.root) by {
        assert(w.pending[i] == v.pending[i]);
    }
    lemma_reaches_kept(v, w, q);
    assert(touches_only_reached(w));
    match file_kind(q) {
        FileKind::Plain => {
            lemma_with_references_touches(v, w, q, Seq::empty());
            lemma_settled_keeps_reach(v, with_references(w, q, Seq::empty()));
        },
        FileKind::World => {
            match decoded_text(q, b) {
                Ok(t) => {
                    lemma_restaged_keeps_reach(v, w, StageView::AwaitWorld(q));
                },
                Err(e) => {
                    lemma_restaged_keeps_reach(v, w, StageView::Stopped);
                },
            }
        },
        FileKind::TiledXml => {
            match decoded_text(q, b) {
                Ok(t) => match tiled_xml_references(t) {
                    Ok(refs) => {
                        lemma_with_references_touches(v, w, q, refs);
                        lemma_settled_keeps_reach(v, with_references(w, q, refs));
                    },
                    Err(e) => {
                        lemma_restaged_keeps_reach(v, w, StageView::Stopped);
                    },
                },
                Err(e) => {
                    lemma_restaged_keeps_reach(v, w, StageView::Stopped);
                },
            }
        },
    }
}

/// The collector reads only files it reaches, each at most once: a step from
/// a live collection that touches only what it reaches keeps every file it
/// fetched and every reference it recorded, still touches only what it
/// reaches, and asks to read only a file that it reaches and has not fetched.
/// (Once read, a file is fetched, so it is never asked for again.)
pub proof fn lemma_collector_reads_reachable_once(v: CollectorView, reply: ReplyView)
    requires
        live_collection(v),
        touches_only_reached(v),
        reply_fits(v.stage, reply),
    ensures
        keeps(v, advanced(v, reply).1),
        touches_only_reached(advanced(v, reply).1),
        advanced(v, reply).0 matches Ok(RequestView::Read(q)) ==> reaches(advanced(v, reply).1, q)
            && !advanced(v, reply).1.files.contains_key(q),
{
    assert(keeps(v, v));
    match (v.stage, reply) {
        (StageView::AwaitBytes(q), ReplyView::Bytes(Ok(b))) => {
            assert(!v.files.contains_key(q));
            assert(!v.references.contains_key(q));
            lemma_bytes_step_keeps_reach(v, q, b);
        },
        (StageView::AwaitWorld(q), ReplyView::World(Ok(refs))) => {
            assert(!v.references.contains_key(q));
            lemma_with_references_touches(v, v, q, refs);
            lemma_settled_keeps_reach(v, with_references(v, q, refs));
        },
        (StageView::AwaitBytes(q), ReplyView::Bytes(Err(e))) => {
            lemma_restaged_keeps_reach(v, v, StageView::Stopped);
        },
        (StageView::AwaitWorld(q), ReplyView::World(Err(e))) => {
            lemma_restaged_keeps_reach(v, v, StageView::Stopped);
        },
        _ => {
            lemma_settled_keeps_reach(v, v);
        },
    }
}

proof fn lemma_keeps_trans(a: CollectorView, b: CollectorView, c: CollectorView)
    requires
        keeps(a, b),
        keeps(b, c),
    ensures
        keeps(a, c),
{
}

proof fn lemma_with_references_touches(v: CollectorView, w: CollectorView, q: Seq<char>, refs: Seq<Seq<char>>)
    requires
        keeps(v, w),
        touches_only_reached(w),
        !w.references.contains_key(q),
        w.references == v.references,
    ensures
        keeps(v, with_references(w, q, refs)),
        touches_only_reached(with_references(w, q, refs)),
{
    let x = with_references(w, q, refs);
    assert(keeps(w, x));
    assert forall|p: Seq<char>| #[trigger] x.files.contains_key(p) implies reaches(x, p) by {
        assert(reaches(w, p));
        lemma_reaches_kept(w, x, p);
    }
    assert forall|i: int| 0 <= i < x.pending.len() implies (#[trigger] x.pending[i] matches PendingView::Resolved(y)
        ==> y == x.root) by {
        if i < w.pending.len() {
            assert(x.pending[i] == w.pending[i]);
        }
    }
    assert forall|i: int| 0 <= i < x.pending.len() implies (#[trigger] x.pending[i] matches PendingView::Reference(
        b,
        r,
    ) ==> x.references.contains_key(b) && x.references[b].contains(r)) by {
        if i < w.pending.len() {
            assert(x.pending[i] == w.pending[i]);
        } else {
            let k = refs.len() - 1 - (i - w.pending.len());
            assert(x.pending[i] == PendingView::Reference(q, refs[k]));
            assert(x.references[q] == refs);
            assert(refs[k] == refs[k]);
        }
    }
    match w.stage {
        StageView::AwaitBytes(y) => {
            lemma_reaches_kept(w, x, y);
        },
        _ => {},
    }
    lemma_keeps_trans(v, w, x);
}

/// A collection about to start touches only what it reaches.
pub proof fn lemma_initial_touches_only_reached(root: Seq<char>, archive: Seq<char>)
    ensures
        touches_only_reached(initial_collection(root, archive)),
{
}

/// A zip archive being written into memory (a `zip::ZipWriter` over a
/// `Cursor<Vec<u8>>`); Verus sees nothing inside it. The writer is held here
/// rather than declared, since the parameter of `ZipWriter` is bound by
/// `Write + Seek`, bounds that Verus does not take on a declared type.
#[verifier::external_body]
pub struct MemoryZip {
    writer: ZipWriter<Cursor<Vec<u8>>>,
}

/// The options of the files written into a zip archive (`zip::write::SimpleFileOptions`);
/// Verus sees nothing inside them. They are held here rather than declared,
/// since the parameter of `FileOptions` is bound by the crate's
/// `FileOptionExtension`, a bound that Verus does not take on a declared type.
#[verifier::external_body]
pub struct ZipFileOptions {
    options: SimpleFileOptions,
}

/// One file of a zip archive as it is written: the name it was started with,
/// the options it was started with, and the bytes written into it.
pub type ZipEntry = (Seq<char>, ZipFileOptions, Seq<u8>);

/// The files that a writer holds, in order, as they were written into it.
pub uninterp spec fn zip_entries(zip: MemoryZip) -> Seq<ZipEntry>;

/// The bytes of the archive that finishing a writer in the given state yields.
pub uninterp spec fn finished_archive(zip: MemoryZip) -> Seq<u8>;

/// Whether a file of the writer is open for writing: started, and not
/// closed since by a failure or by finishing.
pub uninterp spec fn zip_file_open(zip: MemoryZip) -> bool;

/// Whether a fresh in-memory writer takes these files: starting each with its
/// name and options, writing its bytes, and finishing the archive all succeed.
pub uninterp spec fn zip_accepts(entries: Seq<ZipEntry>) -> bool;

/// The options that `FileOptions::compression_method` with
/// `CompressionMethod::Deflated` makes of `o`.
pub uninterp spec fn options_deflated(o: ZipFileOptions) -> ZipFileOptions;

/// The options that `FileOptions::unix_permissions` with `mode` makes of `o`.
pub uninterp spec fn options_with_mode(o: ZipFileOptions, mode: u32) -> ZipFileOptions;

/// Whether the files `held` lead to `full`: all but the last are the first
/// files of `full`, and the last has the name and options of the
/// corresponding file of `full`, and bytes that begin its bytes.
pub open spec fn leads_to(held: Seq<ZipEntry>, full: Seq<ZipEntry>) -> bool {
    &&& held.len() <= full.len()
    &&& forall|k: int| 0 <= k < held.len() - 1 ==> #[trigger] held[k] == full[k]
    &&& held.len() > 0 ==> {
        let last = held.last();
        let want = full[held.len() - 1];
        last.0 == want.0 && last.1 == want.1 && last.2.is_prefix_of(want.2)
    }
}

/// Whether a writer holding `held` can still go on to files that it takes.
pub open spec fn zip_can_continue(held: Seq<ZipEntry>) -> bool {
    exists|full: Seq<ZipEntry>| #[trigger] zip_accepts(full) && leads_to(held, full)
}

/// `ZipWriter::new` over an empty in-memory buffer (`Cursor::new(Vec::new())`).
/// The contract claims that no file has been written into it yet.
#[verifier::external_body]
fn zip_writer_in_memory() -> (w: MemoryZip)
    ensures
        zip_entries(w) == Seq::<ZipEntry>::empty(),
{
    MemoryZip { writer: ZipWriter::new(Cursor::new(Vec::new())) }
}

/// `SimpleFileOptions::default()`.
#[verifier::external_body]
fn zip_default_options() -> (o: ZipFileOptions) {
    ZipFileOptions { options: SimpleFileOptions::default() }
}

/// `FileOptions::compression_method` with `CompressionMethod::Deflated`. The
/// contract claims that the result is `options_deflated(o)`.
#[verifier::external_body]
fn zip_deflated(o: ZipFileOptions) -> (r: ZipFileOptions)
    ensures
        r == options_deflated(o),
{
    ZipFileOptions { options: o.options.compression_method(CompressionMethod::Deflated) }
}

/// `FileOptions::unix_permissions` with `mode`. The contract claims that the
/// result is `options_with_mode(o, mode)`.
#[verifier::external_body]
fn zip_unix_permissions(o: ZipFileOptions, mode: u32) -> (r: ZipFileOptions)
    ensures
        r == options_with_mode(o, mode),
{
    ZipFileOptions { options: o.options.unix_permissions(mode) }
}

/// `ZipWriter::start_file`, with the error taken as its message. The contract
/// claims that, when it succeeds, a new file named `name`, with options `o`
/// and no bytes yet, follows those written before and is open for writing;
/// and that it succeeds when the writer can still go on to files it takes
/// with that file added.
#[verifier::external_body]
fn zip_start_file(zip: &mut MemoryZip, name: &str, o: &ZipFileOptions) -> (r: Result<(), String>)
    ensures
        r is Ok ==> zip_entries(*final(zip)) == zip_entries(*old(zip)).push((name@, *o, Seq::<u8>::empty())),
        r is Ok ==> zip_file_open(*final(zip)),
        zip_can_continue(zip_entries(*old(zip)).push((name@, *o, Seq::<u8>::empty()))) ==> r is Ok,
{
    match zip.writer.start_file(name, o.options) {
        Ok(()) => Ok(()),
        Err(err) => Err(err.to_string()),
    }
}

/// The files `held` with `bytes` appended to the bytes of the last one.
pub open spec fn appended(held: Seq<ZipEntry>, bytes: Seq<u8>) -> Seq<ZipEntry> {
    held.update(held.len() - 1, (held.last().0, held.last().1, held.last().2 + bytes))
}

/// `Write::write_all` on a zip writer, with the error taken as its message.
/// The contract claims that, when it succeeds, the bytes are appended to the
/// file started last (with no file started, only writing nothing succeeds)
/// and whether a file is open stays as it was; and that, with a file open, it
/// succeeds when the writer can still go on to files it takes with the bytes
/// appended.
#[verifier::external_body]
fn zip_write_all(zip: &mut MemoryZip, bytes: &[u8]) -> (r: Result<(), String>)
    ensures
        r is Ok && zip_entries(*old(zip)).len() > 0 ==> zip_entries(*final(zip)) == appended(
            zip_entries(*old(zip)),
            bytes@,
        ),
        r is Ok && zip_entries(*old(zip)).len() == 0 ==> zip_entries(*final(zip)) == zip_entries(*old(zip))
            && bytes@.len() == 0,
        r is Ok ==> zip_file_open(*final(zip)) == zip_file_open(*old(zip)),
        zip_file_open(*old(zip)) && zip_entries(*old(zip)).len() > 0 && zip_can_continue(
            appended(zip_entries(*old(zip)), bytes@),
        ) ==> r is Ok,
{
    match zip.writer.write_all(bytes) {
        Ok(()) => Ok(()),
        Err(err) => Err(err.to_string()),
    }
}

/// `ZipWriter::finish`, with the buffer taken out of its cursor and the error
/// taken as its message. The contract claims that the bytes are those of the
/// archive finished from the writer's state, and that finishing succeeds when
/// the writer holds files that it takes.
#[verifier::external_body]
fn zip_finish(zip: MemoryZip) -> (r: Result<Vec<u8>, String>)
    ensures
        r matches Ok(b) ==> b@ == finished_archive(zip),
        zip_accepts(zip_entries(zip)) ==> r is Ok,
{
    match zip.writer.finish() {
        Ok(cursor) => Ok(cursor.into_inner()),
        Err(err) => Err(err.to_string()),
    }
}

/// The messages that writing a bundle's archive can fail with: a file that
/// could not be started or written (by its path), or an archive that could not
/// be finished; each followed by the zip crate's own message.
pub open spec fn zip_failure(files: Seq<BundleFile>, e: Seq<char>) -> bool {
    ||| exists|i: int| 0 <= i < files.len() && ("failed to start zip entry '"@ + #[trigger] files[i].path@
        + "': "@).is_prefix_of(e)
    ||| exists|i: int| 0 <= i < files.len() && ("failed to write zip entry '"@ + #[trigger] files[i].path@
        + "': "@).is_prefix_of(e)
    ||| "failed to finalize zip archive: "@.is_prefix_of(e)
}

/// A message made of `a`, `b`, `c` and `d`.
fn message4(a: &str, b: &str, c: &str, d: &str) -> (e: DownloadError)
    ensures
        e@ == a@ + b@ + c@ + d@,
{
    let mut s = String::from_str(a);
    s.append(b);
    s.append(c);
    s.append(d);
    DownloadError::new(s)
}

/// The files of a bundle as a zip writer holds them, each started with the
/// options `o`: path, options and bytes, in order.
pub open spec fn bundle_entries(files: Seq<BundleFile>, o: ZipFileOptions) -> Seq<ZipEntry> {
    files.map_values(|f: BundleFile| (f.path@, o, f.bytes@))
}

/// What writing a bundle's archive gives, for the options `o` it writes every
/// file with: it succeeds whenever the writer takes the bundle's files, and on
/// success the bytes are those of an archive finished from a writer holding
/// exactly the bundle's files, in order, each under its path.
pub open spec fn zip_outcome(files: Seq<BundleFile>, o: ZipFileOptions, r: Result<Vec<u8>, DownloadError>) -> bool {
    &&& zip_accepts(bundle_entries(files, o)) ==> r is Ok
    &&& r matches Ok(b) ==> exists|z: MemoryZip| zip_entries(z) == bundle_entries(files, o) && b@ == finished_archive(z)
}

/// Writes the bundle's files, in order, into a zip archive in memory, each
/// deflated and with Unix mode 0o644 (readable and writable by its owner,
/// readable by others), and returns the archive's bytes (see `zip_outcome`);
/// a failure names the file or step that failed.
pub fn bundle_to_zip_bytes(bundle: &DownloadBundle) -> (r: Result<Vec<u8>, DownloadError>)
    ensures
        r matches Err(e) ==> zip_failure(bundle.files@, e@),
        exists|d: ZipFileOptions| #[trigger] zip_outcome(bundle.files@, options_with_mode(options_deflated(d), 0o644), r),
{
    let default = zip_default_options();
    let ghost d = default;
    let options = zip_unix_permissions(zip_deflated(default), 0o644);
    let ghost o = options;
    let ghost all = bundle_entries(bundle.files@, o);
    let mut writer = zip_writer_in_memory();
    let mut i: usize = 0;
    assert(all.take(0) =~= Seq::<ZipEntry>::empty());
    while i < bundle.files.len()
        invariant
            i <= bundle.files.len(),
            o == options,
            o == options_with_mode(options_deflated(d), 0o644),
            all == bundle_entries(bundle.files@, o),
            zip_entries(writer) == all.take(i as int),
        decreases bundle.files.len() - i,
    {
        let file = &bundle.files[i];
        let ghost started = all.take(i as int).push((file.path@, o, Seq::<u8>::empty()));
        proof {
            assert(all[i as int] == (file.path@, o, file.bytes@));
            if zip_accepts(all) {
                assert(Seq::<u8>::empty().is_prefix_of(file.bytes@));
                assert(leads_to(started, all));
            }
        }
        match zip_start_file(&mut writer, file.path.as_str(), &options) {
            Ok(()) => {},
            Err(m) => {
                let e = message4("failed to start zip entry '", file.path.as_str(), "': ", m.as_str());
                let ghost pre = "failed to start zip entry '"@ + bundle.files@[i as int].path@ + "': "@;
                assert(e@ == pre + m@);
                assert(e@.take(pre.len() as int) =~= pre);
                let r: Result<Vec<u8>, DownloadError> = Err(e);
                assert(zip_outcome(bundle.files@, o, r));
                return r;
            },
        }
        let ghost written = appended(started, file.bytes@);
        proof {
            assert(written =~= all.take(i + 1));
            if zip_accepts(all) {
                assert(file.bytes@.is_prefix_of(file.bytes@));
                assert(Seq::<u8>::empty() + file.bytes@ =~= file.bytes@);
                assert(leads_to(written, all));
            }
        }
        match zip_write_all(&mut writer, file.bytes.as_slice()) {
            Ok(()) => {},
            Err(m) => {
                let e = message4("failed to write zip entry '", file.path.as_str(), "': ", m.as_str());
                let ghost pre = "failed to write zip entry '"@ + bundle.files@[i as int].path@ + "': "@;
                assert(e@ == pre + m@);
                assert(e@.take(pre.len() as int) =~= pre);
                let r: Result<Vec<u8>, DownloadError> = Err(e);
                assert(zip_outcome(bundle.files@, o, r));
                return r;
            },
        }
        i = i + 1;
    }
    assert(all.take(bundle.files.len() as int) =~= all);
    let ghost held = writer;
    match zip_finish(writer) {
        Ok(bytes) => {
            assert(zip_entries(held) == all && bytes@ == finished_archive(held));
            let r: Result<Vec<u8>, DownloadError> = Ok(bytes);
            assert(zip_outcome(bundle.files@, o, r));
            r
        },
        Err(m) => {
            let mut s = String::from_str("failed to finalize zip archive: ");
            s.append(m.as_str());
            let ghost pre = "failed to finalize zip archive: "@;
            assert(s@.take(pre.len() as int) =~= pre);
            let r: Result<Vec<u8>, DownloadError> = Err(DownloadError::new(s));
            assert(zip_outcome(bundle.files@, o, r));
            r
        },
    }
}

} // verus!
