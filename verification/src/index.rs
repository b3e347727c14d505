//! What goes into the index: which files, when, and how a file that is there already is replaced.
use vstd::prelude::*;

use crate::numbers::{
    append_number, decimal, digit_char, digits_value, is_digit, parse_unsigned, unsigned_digits,
    unsigned_value,
};
use crate::strings::{
    has_prefix, is_blank, law_trim_takes_blanks_off, lemma_occurs_between, lemma_occurs_whole,
    lemma_trim_blank, occurs, strip_prefixes, stripped_prefixes, text_contains, trim, trimmed,
};
use crate::text::{
    ascii_lower_all, from_chars, is_ascii_char, is_ascii_text, lowercase, same_text, to_chars,
};

verus! {

// ---------------------------------------------------------------------------------------------
// Which files
// ---------------------------------------------------------------------------------------------
/// Whether a path, in lower case, leads into a folder that is not indexed.
pub open spec fn excluded_path(lower: Seq<char>) -> bool {
    ||| occurs(lower, "textmesh pro"@)
    ||| occurs(lower, "node_modules"@)
    ||| occurs(lower, "target"@)
    ||| occurs(lower, "/.git/"@)
    ||| occurs(lower, "\\.git\\"@)
}

/// Whether files with an extension, in lower case, are indexed.
pub open spec fn indexed_extension(lower: Seq<char>) -> bool {
    ||| lower == "rs"@
    ||| lower == "c"@
    ||| lower == "cpp"@
    ||| lower == "h"@
    ||| lower == "hpp"@
    ||| lower == "py"@
    ||| lower == "js"@
    ||| lower == "ts"@
    ||| lower == "toml"@
    ||| lower == "json"@
    ||| lower == "yaml"@
    ||| lower == "yml"@
    ||| lower == "md"@
    ||| lower == "sh"@
    ||| lower == "cs"@
    ||| lower == "shader"@
    ||| lower == "hlsl"@
}

/// Whether the file at a path, with the given extension, is indexed.
pub open spec fn indexable(path: Seq<char>, extension: Option<Seq<char>>) -> bool {
    !excluded_path(lowercase(path)) && match extension {
        Some(e) => indexed_extension(lowercase(e)),
        None => false,
    }
}

/// Whether the file at a path, with the given extension, is indexed.
pub fn is_indexable(path: &str, extension: Option<&str>) -> (res: bool)
    ensures
        res == indexable(
            path@,
            match extension {
                Some(e) => Some(e@),
                None => None,
            },
        ),
{
    let lower = path.to_lowercase();
    let lower = lower.as_str();
    if text_contains(lower, "textmesh pro") || text_contains(lower, "node_modules")
        || text_contains(lower, "target") || text_contains(lower, "/.git/") || text_contains(
        lower,
        "\\.git\\",
    ) {
        return false;
    }
    match extension {
        Some(e) => {
            let e = e.to_lowercase();
            let e = e.as_str();
            same_text(e, "rs") || same_text(e, "c") || same_text(e, "cpp") || same_text(e, "h")
                || same_text(e, "hpp") || same_text(e, "py") || same_text(e, "js") || same_text(
                e,
                "ts",
            ) || same_text(e, "toml") || same_text(e, "json") || same_text(e, "yaml") || same_text(
                e,
                "yml",
            ) || same_text(e, "md") || same_text(e, "sh") || same_text(e, "cs") || same_text(
                e,
                "shader",
            ) || same_text(e, "hlsl")
        },
        None => false,
    }
}

/// The position of the last `c`, or -1.
pub open spec fn last_position(s: Seq<char>, c: char) -> int
    decreases s.len(),
{
    if s.len() == 0 {
        -1
    } else if s.last() == c {
        s.len() - 1
    } else {
        last_position(s.drop_last(), c)
    }
}

/// The position of the last `c` lies in `s`, or is -1.
pub proof fn lemma_last_position(s: Seq<char>, c: char)
    ensures
        -1 <= last_position(s, c) < s.len(),
    decreases s.len(),
{
    if s.len() > 0 {
        lemma_last_position(s.drop_last(), c);
    }
}

/// The name of the file that a path with forward slashes leads to: its last part. Empty parts and
/// single dots at the end do not count, and a path that ends in two dots leads to no file.
pub open spec fn file_name(path: Seq<char>) -> Option<Seq<char>>
    decreases path.len(),
{
    proof {
        lemma_last_position(path, '/');
    }
    let slash = last_position(path, '/');
    let part = path.skip(slash + 1);
    if part.len() == 0 || part == "."@ {
        if slash < 0 {
            None
        } else {
            file_name(path.take(slash))
        }
    } else if part == ".."@ {
        None
    } else {
        Some(part)
    }
}

/// What follows the last dot of a file name, where something stands before that dot.
pub open spec fn name_extension(name: Seq<char>) -> Option<Seq<char>> {
    let dot = last_position(name, '.');
    if dot > 0 {
        Some(name.skip(dot + 1))
    } else {
        None
    }
}

/// Whether a path means the same on every system: it has no backslash, no colon, and does not
/// begin with two slashes.
pub open spec fn portable_path(path: Seq<char>) -> bool {
    &&& !path.contains('\\')
    &&& !path.contains(':')
    &&& !(path.len() > 1 && path[0] == '/' && path[1] == '/')
}

/// The extension of a portable path.
pub open spec fn portable_extension(path: Seq<char>) -> Option<Seq<char>> {
    match file_name(path) {
        Some(name) => name_extension(name),
        None => None,
    }
}

/// The position of the last character of a path at which some system parts it, or -1.
pub open spec fn last_break(path: Seq<char>) -> int {
    let slash = last_position(path, '/');
    let backslash = last_position(path, '\\');
    let colon = last_position(path, ':');
    let sign = if slash > backslash {
        slash
    } else {
        backslash
    };
    if sign > colon {
        sign
    } else {
        colon
    }
}

/// Whether a path begins with two slashes of either kind, which on some systems name a machine or a
/// device.
pub open spec fn share_path(path: Seq<char>) -> bool {
    path.len() > 1 && (path[0] == '/' || path[0] == '\\') && (path[1] == '/' || path[1] == '\\')
}

/// The extension that every system finds in a path: that of what stands behind the last character at
/// which one of them parts it, where that has one.
pub open spec fn common_extension(path: Seq<char>) -> Option<Seq<char>> {
    let part = path.skip(last_break(path) + 1);
    if share_path(path) || part == ".."@ {
        None
    } else {
        name_extension(part)
    }
}

/// Whether no system finds an extension in a path: it has no dot, or it ends in a name and has no
/// dot behind its last slash.
pub open spec fn bare_path(path: Seq<char>) -> bool {
    ||| !path.contains('.')
    ||| !share_path(path) && last_break(path) < path.len() - 1 && !path.skip(
        last_position(path, '/') + 1,
    ).contains('.')
}

/// Whether `extension` can be the extension of a path: it is what the systems agree on, where they
/// do. Where one takes a backslash or a colon for a part of a name and another does not, any can be.
pub open spec fn agreed_extension(path: Seq<char>, extension: Option<Seq<char>>) -> bool {
    &&& portable_path(path) ==> extension == portable_extension(path)
    &&& common_extension(path) is Some ==> extension == common_extension(path)
    &&& bare_path(path) ==> extension is None
}

/// Calls `std::path::Path::extension`. Claimed: of a portable path, the result is what follows the
/// last dot of the file name, where something stands before that dot. Of a path that names no
/// machine or device, it is what follows the last dot of the part behind the last slash, backslash
/// or colon, where something stands before that dot in that part, and the part is not two dots. A
/// path without a dot has no extension, nor has one that ends in a name and has no dot behind its
/// last slash. Of other paths, which the systems read differently, nothing is claimed.
#[verifier::external_body]
fn path_extension(path: &str) -> (res: Option<String>)
    ensures
        portable_path(path@) ==> match res {
            Some(e) => portable_extension(path@) == Some(e@),
            None => portable_extension(path@) is None,
        },
        common_extension(path@) is Some ==> res is Some && Some(res->Some_0@) == common_extension(
            path@,
        ),
        bare_path(path@) ==> res is None,
{
    std::path::Path::new(path).extension().and_then(|e| e.to_str()).map(|e| e.to_owned())
}

/// Whether the file at a path is indexed. Its extension is what the system takes for it.
pub fn is_indexable_file(path_str: &str) -> (res: bool)
    ensures
        exists|extension: Option<Seq<char>>|
            res == #[trigger] indexable(path_str@, extension) && agreed_extension(
                path_str@,
                extension,
            ),
        portable_path(path_str@) ==> res == indexable(path_str@, portable_extension(path_str@)),
        common_extension(path_str@) is Some ==> res == indexable(
            path_str@,
            common_extension(path_str@),
        ),
        bare_path(path_str@) ==> !res,
        excluded_path(lowercase(path_str@)) ==> !res,
{
    let extension = path_extension(path_str);
    let ghost known: Option<Seq<char>> = match &extension {
        Some(e) => Some(e@),
        None => None,
    };
    let res = match &extension {
        Some(e) => is_indexable(path_str, Some(e.as_str())),
        None => is_indexable(path_str, None),
    };
    assert(res == indexable(path_str@, known));
    assert(agreed_extension(path_str@, known));
    res
}

/// The path under which a file is stored: without the prefix of long paths.
pub open spec fn stored_path(raw: Seq<char>) -> Seq<char> {
    strip_prefixes(raw, "\\\\?\\"@)
}

/// The path under which a file is stored: without the prefix of long paths.
pub fn path_to_store(raw: &str) -> (res: String)
    ensures
        res@ == stored_path(raw@),
{
    proof {
        reveal_strlit("\\\\?\\");
    }
    let chars = to_chars(raw);
    from_chars(stripped_prefixes(chars.as_slice(), "\\\\?\\"))
}

// ---------------------------------------------------------------------------------------------
// When
// ---------------------------------------------------------------------------------------------
/// The time of the last run, in seconds: what the state file says, and zero where the index is
/// built anew or the file says nothing.
pub open spec fn last_run(reindex: bool, state: Option<Seq<char>>) -> u64 {
    if reindex {
        0
    } else {
        match state {
            Some(text) => match unsigned_value(trim(text)) {
                Some(n) => n,
                None => 0,
            },
            None => 0,
        }
    }
}

/// The time of the last run, in seconds.
pub fn last_run_time(reindex: bool, state: Option<&str>) -> (res: u64)
    ensures
        res == last_run(
            reindex,
            match state {
                Some(text) => Some(text@),
                None => None,
            },
        ),
{
    if reindex {
        return 0;
    }
    match state {
        Some(text) => {
            let chars = to_chars(text);
            match parse_unsigned(trimmed(chars.as_slice())) {
                Some(n) => n,
                None => 0,
            }
        },
        None => 0,
    }
}

/// What the state file says after a run at the given time. The name of an index is written the
/// same way.
pub fn state_text(time: u64) -> (res: String)
    ensures
        res@ == decimal(time as nat),
{
    let mut out = String::new();
    append_number(&mut out, time);
    assert(Seq::<char>::empty() + decimal(time as nat) =~= decimal(time as nat));
    out
}

/// Whether a file has to be indexed again: it changed since the last run began.
pub open spec fn due(modified: u64, last_run: u64) -> bool {
    modified >= last_run
}

/// Whether a file has to be indexed again: it changed since the last run began.
pub fn is_due(modified: u64, last_run: u64) -> (res: bool)
    ensures
        res == due(modified, last_run),
{
    modified >= last_run
}

// ---------------------------------------------------------------------------------------------
// How a file is replaced
// ---------------------------------------------------------------------------------------------
/// A document of the index.
#[verifier::ext_equal]
pub struct DocumentText {
    pub path: Seq<char>,
    pub content: Seq<char>,
}

/// A change to the index.
#[derive(Debug)]
pub enum IndexChange {
    /// Take out every document with exactly this path.
    Delete { path: String },
    /// Put a document in.
    Add { path: String, content: String },
}

/// What a change says.
#[verifier::ext_equal]
pub enum ChangeText {
    Delete(Seq<char>),
    Add(DocumentText),
}

impl View for IndexChange {
    type V = ChangeText;

    open spec fn view(&self) -> ChangeText {
        match *self {
            IndexChange::Delete { path } => ChangeText::Delete(path@),
            IndexChange::Add { path, content } => ChangeText::Add(
                DocumentText { path: path@, content: content@ },
            ),
        }
    }
}

/// The documents after a change.
pub open spec fn changed(docs: Seq<DocumentText>, change: ChangeText) -> Seq<DocumentText> {
    match change {
        ChangeText::Delete(path) => docs.filter(|d: DocumentText| d.path != path),
        ChangeText::Add(doc) => docs.push(doc),
    }
}

/// The documents after changes, in order.
pub open spec fn all_changed(docs: Seq<DocumentText>, changes: Seq<ChangeText>) -> Seq<DocumentText>
    decreases changes.len(),
{
    if changes.len() == 0 {
        docs
    } else {
        changed(all_changed(docs, changes.drop_last()), changes.last())
    }
}

/// What changes say.
pub open spec fn change_texts(v: Seq<IndexChange>) -> Seq<ChangeText> {
    v.map_values(|c: IndexChange| c@)
}

/// The changes that bring one file up to date.
pub open spec fn upsert(path: Seq<char>, content: Seq<char>) -> Seq<ChangeText> {
    seq![ChangeText::Delete(path), ChangeText::Add(DocumentText { path, content })]
}

/// The changes that bring one file up to date: what is stored under its path goes, and the file
/// comes in.
pub fn upsert_changes(path: &str, content: String) -> (res: Vec<IndexChange>)
    ensures
        change_texts(res@) == upsert(path@, content@),
{
    let ghost text = content@;
    let mut out: Vec<IndexChange> = Vec::new();
    out.push(IndexChange::Delete { path: path.to_owned() });
    out.push(IndexChange::Add { path: path.to_owned(), content });
    assert(change_texts(out@) =~= upsert(path@, text));
    out
}

/// Whether a run takes up the file at a path: it is indexed, and it is due.
pub open spec fn wanted(
    path: Seq<char>,
    extension: Option<Seq<char>>,
    modified: u64,
    last_run: u64,
) -> bool {
    indexable(path, extension) && due(modified, last_run)
}

/// Whether a run takes up the file at a path, so that its content has to be read.
pub fn should_index(path: &str, modified: u64, last_run: u64) -> (res: bool)
    ensures
        exists|extension: Option<Seq<char>>|
            res == #[trigger] wanted(path@, extension, modified, last_run) && agreed_extension(
                path@,
                extension,
            ),
{
    let indexed = is_indexable_file(path);
    let ghost extension = choose|extension: Option<Seq<char>>|
        indexed == #[trigger] indexable(path@, extension) && agreed_extension(path@, extension);
    let res = indexed && is_due(modified, last_run);
    assert(res == wanted(path@, extension, modified, last_run));
    res
}

/// The changes that a run makes for one file: it is brought up to date where it is indexed and due,
/// and left alone where it is not.
pub open spec fn file_upsert(
    path: Seq<char>,
    extension: Option<Seq<char>>,
    modified: u64,
    last_run: u64,
    content: Seq<char>,
) -> Seq<ChangeText> {
    if wanted(path, extension, modified, last_run) {
        upsert(path, content)
    } else {
        Seq::<ChangeText>::empty()
    }
}

/// The changes that a run makes for one file. Its extension is what the system takes for it.
pub fn file_changes(path: &str, modified: u64, last_run: u64, content: String) -> (res: Vec<
    IndexChange,
>)
    ensures
        exists|extension: Option<Seq<char>>|
            change_texts(res@) == #[trigger] file_upsert(
                path@,
                extension,
                modified,
                last_run,
                content@,
            ) && agreed_extension(path@, extension),
{
    let ghost text = content@;
    let taken = should_index(path, modified, last_run);
    let ghost extension = choose|extension: Option<Seq<char>>|
        taken == #[trigger] wanted(path@, extension, modified, last_run) && agreed_extension(
            path@,
            extension,
        );
    let res = if taken {
        upsert_changes(path, content)
    } else {
        let none: Vec<IndexChange> = Vec::new();
        assert(change_texts(none@) =~= Seq::<ChangeText>::empty());
        none
    };
    assert(change_texts(res@) == file_upsert(path@, extension, modified, last_run, text));
    res
}

// ---------------------------------------------------------------------------------------------
// Laws
// ---------------------------------------------------------------------------------------------
proof fn lemma_decimal_digits(n: nat)
    ensures
        decimal(n).len() > 0,
        forall|i: int| 0 <= i < decimal(n).len() ==> is_digit(#[trigger] decimal(n)[i]),
        digits_value(decimal(n)) == n,
    decreases n,
{
    if n < 10 {
        let d = digit_char(n);
        assert(d as u32 == 48 + n);
        assert(decimal(n).drop_last() =~= Seq::<char>::empty());
        reveal_with_fuel(digits_value, 2);
    } else {
        lemma_decimal_digits(n / 10);
        let d = digit_char(n % 10);
        assert(d as u32 == 48 + n % 10);
        assert(decimal(n).drop_last() =~= decimal(n / 10));
        assert forall|i: int| 0 <= i < decimal(n).len() implies is_digit(
            #[trigger] decimal(n)[i],
        ) by {
            if i < decimal(n / 10).len() {
                assert(decimal(n)[i] == decimal(n / 10)[i]);
            }
        }
    }
}

/// The time that a run leaves behind is the time that the next run reads.
pub proof fn law_state_read_back(time: u64)
    ensures
        last_run(false, Some(decimal(time as nat))) == time,
{
    let s = decimal(time as nat);
    lemma_decimal_digits(time as nat);
    assert(is_digit(s[0]));
    assert(is_digit(s[s.len() - 1]));
    assert(trim(s) == s);
    assert(unsigned_digits(s) == s);
}

proof fn lemma_filter_path(docs: Seq<DocumentText>, path: Seq<char>, other: Seq<char>)
    ensures
        ({
            let kept = docs.filter(|d: DocumentText| d.path != path);
            &&& forall|i: int| 0 <= i < kept.len() ==> (#[trigger] kept[i]).path != path
            &&& other != path ==> kept.filter(|d: DocumentText| d.path == other) == docs.filter(
                |d: DocumentText| d.path == other,
            )
        }),
    decreases docs.len(),
{
    reveal(Seq::filter);
    let keep = |d: DocumentText| d.path != path;
    let pick = |d: DocumentText| d.path == other;
    if docs.len() > 0 {
        let head = docs.drop_last();
        lemma_filter_path(head, path, other);
        let kept = head.filter(keep);
        if docs.last().path != path {
            assert(kept.push(docs.last()).drop_last() =~= kept);
            assert(kept.push(docs.last()).last() == docs.last());
        }
    }
}

/// Bringing a file up to date never leaves two documents for it: whatever was stored under its
/// path, afterwards there is exactly one document with that path, with the new content. The
/// documents of every other path stay as they were.
pub proof fn law_upsert_leaves_one_document(
    docs: Seq<DocumentText>,
    path: Seq<char>,
    content: Seq<char>,
    other: Seq<char>,
)
    ensures
        all_changed(docs, upsert(path, content)).filter(|d: DocumentText| d.path == path) == seq![
            DocumentText { path, content },
        ],
        other != path ==> all_changed(docs, upsert(path, content)).filter(
            |d: DocumentText| d.path == other,
        ) == docs.filter(|d: DocumentText| d.path == other),
{
    let changes = upsert(path, content);
    let doc = DocumentText { path, content };
    assert(changes.drop_last() =~= seq![ChangeText::Delete(path)]);
    assert(changes.drop_last().drop_last() =~= Seq::<ChangeText>::empty());
    reveal_with_fuel(all_changed, 3);
    let kept = docs.filter(|d: DocumentText| d.path != path);
    assert(all_changed(docs, changes) == kept.push(doc));
    lemma_filter_path(docs, path, other);
    let same = |d: DocumentText| d.path == path;
    let pick = |d: DocumentText| d.path == other;
    lemma_none_pass(kept, path);
    reveal(Seq::filter);
    assert(kept.push(doc).drop_last() =~= kept);
    assert(kept.push(doc).filter(same) =~= seq![doc]);
}

proof fn lemma_none_pass(docs: Seq<DocumentText>, path: Seq<char>)
    requires
        forall|i: int| 0 <= i < docs.len() ==> (#[trigger] docs[i]).path != path,
    ensures
        docs.filter(|d: DocumentText| d.path == path) == Seq::<DocumentText>::empty(),
    decreases docs.len(),
{
    reveal(Seq::filter);
    if docs.len() > 0 {
        let head = docs.drop_last();
        assert forall|i: int| 0 <= i < head.len() implies (#[trigger] head[i]).path != path by {
            assert(head[i] == docs[i]);
        }
        lemma_none_pass(head, path);
        assert(docs[docs.len() - 1].path != path);
    }
}

/// A file as it is on disk, with the extension that the system takes for its own.
#[verifier::ext_equal]
pub struct FileText {
    pub doc: DocumentText,
    pub extension: Option<Seq<char>>,
    pub modified: u64,
}

/// Whether a run takes a file up.
pub open spec fn takes(file: FileText, last_run: u64) -> bool {
    wanted(file.doc.path, file.extension, file.modified, last_run)
}

/// The documents after a run over the first `n` files.
pub open spec fn run_up_to(
    docs: Seq<DocumentText>,
    files: Seq<FileText>,
    last_run: u64,
    n: int,
) -> Seq<DocumentText>
    decreases n,
{
    if n <= 0 {
        docs
    } else {
        let file = files[n - 1];
        all_changed(
            run_up_to(docs, files, last_run, n - 1),
            file_upsert(
                file.doc.path,
                file.extension,
                file.modified,
                last_run,
                file.doc.content,
            ),
        )
    }
}

/// The documents that are stored under a path.
pub open spec fn stored(docs: Seq<DocumentText>, path: Seq<char>) -> Seq<DocumentText> {
    docs.filter(|d: DocumentText| d.path == path)
}

/// Whether no two files have the same path.
pub open spec fn distinct_paths(files: Seq<FileText>) -> bool {
    forall|i: int, j: int|
        0 <= i < j < files.len() ==> (#[trigger] files[i]).doc.path != (
        #[trigger] files[j]).doc.path
}

proof fn lemma_run_up_to(
    docs: Seq<DocumentText>,
    files: Seq<FileText>,
    last_run: u64,
    n: int,
    path: Seq<char>,
)
    requires
        0 <= n <= files.len(),
        distinct_paths(files),
    ensures
        forall|i: int|
            #![trigger files[i]]
            0 <= i < n && takes(files[i], last_run) && files[i].doc.path == path ==> stored(
                run_up_to(docs, files, last_run, n),
                path,
            ) == seq![files[i].doc],
        (forall|i: int|
            #![trigger files[i]]
            0 <= i < n && takes(files[i], last_run) ==> files[i].doc.path != path) ==> stored(
            run_up_to(docs, files, last_run, n),
            path,
        ) == stored(docs, path),
    decreases n,
{
    if n > 0 {
        lemma_run_up_to(docs, files, last_run, n - 1, path);
        let before = run_up_to(docs, files, last_run, n - 1);
        let file = files[n - 1];
        if takes(file, last_run) {
            law_upsert_leaves_one_document(before, file.doc.path, file.doc.content, path);
        }
        assert forall|i: int|
            #![trigger files[i]]
            0 <= i < n && takes(files[i], last_run) && files[i].doc.path == path implies stored(
            run_up_to(docs, files, last_run, n),
            path,
        ) == seq![files[i].doc] by {
            if i < n - 1 {
                assert(files[i].doc.path != files[n - 1].doc.path);
            }
        }
    }
}

/// A run takes up exactly the files that are indexed and due: each of them has one document
/// afterwards, as the file is. The documents of every other file, and of paths that lead to no file
/// of the run, stay as they were.
pub proof fn law_run_takes_exactly_what_is_due(
    docs: Seq<DocumentText>,
    files: Seq<FileText>,
    last_run: u64,
    path: Seq<char>,
)
    requires
        distinct_paths(files),
    ensures
        forall|i: int|
            #![trigger files[i]]
            0 <= i < files.len() ==> stored(
                run_up_to(docs, files, last_run, files.len() as int),
                files[i].doc.path,
            ) == if indexable(files[i].doc.path, files[i].extension) && due(
                files[i].modified,
                last_run,
            ) {
                seq![files[i].doc]
            } else {
                stored(docs, files[i].doc.path)
            },
        (forall|i: int| 0 <= i < files.len() ==> (#[trigger] files[i]).doc.path != path) ==> stored(
            run_up_to(docs, files, last_run, files.len() as int),
            path,
        ) == stored(docs, path),
{
    let n = files.len() as int;
    lemma_run_up_to(docs, files, last_run, n, path);
    assert forall|i: int| #![trigger files[i]] 0 <= i < n implies stored(
        run_up_to(docs, files, last_run, n),
        files[i].doc.path,
    ) == if takes(files[i], last_run) {
        seq![files[i].doc]
    } else {
        stored(docs, files[i].doc.path)
    } by {
        lemma_run_up_to(docs, files, last_run, n, files[i].doc.path);
        if !takes(files[i], last_run) {
            assert forall|j: int|
                #![trigger files[j]]
                0 <= j < n && takes(files[j], last_run) implies files[j].doc.path
                != files[i].doc.path by {
                if i < j {
                    assert(files[i].doc.path != files[j].doc.path);
                } else if j < i {
                    assert(files[j].doc.path != files[i].doc.path);
                }
            }
        }
    }
}

/// A run over the files that changed is enough: where the index held every unchanged file as it
/// is, afterwards it holds every indexed file as it is, and each once.
pub proof fn law_run_brings_index_up_to_date(
    docs: Seq<DocumentText>,
    files: Seq<FileText>,
    last_run: u64,
)
    requires
        distinct_paths(files),
        forall|i: int|
            #![trigger files[i]]
            0 <= i < files.len() && indexable(files[i].doc.path, files[i].extension) && !due(
                files[i].modified,
                last_run,
            ) ==> stored(docs, files[i].doc.path) == seq![files[i].doc],
    ensures
        forall|i: int|
            #![trigger files[i]]
            0 <= i < files.len() && indexable(files[i].doc.path, files[i].extension) ==> stored(
                run_up_to(docs, files, last_run, files.len() as int),
                files[i].doc.path,
            ) == seq![files[i].doc],
{
    law_run_takes_exactly_what_is_due(docs, files, last_run, Seq::<char>::empty());
}

/// The time of the last run is read whatever blanks stand round it; a state file that says no number,
/// none at all, and a request to build anew mean that there was none.
pub proof fn law_state_is_read_among_blanks(
    time: u64,
    a: Seq<char>,
    b: Seq<char>,
    state: Option<Seq<char>>,
)
    requires
        is_blank(a),
        is_blank(b),
    ensures
        last_run(false, Some(a + decimal(time as nat) + b)) == time,
        last_run(false, None) == 0,
        last_run(false, Some(a)) == 0,
        last_run(true, state) == 0,
{
    let s = decimal(time as nat);
    lemma_decimal_digits(time as nat);
    assert(is_digit(s[0]));
    assert(is_digit(s[s.len() - 1]));
    law_trim_takes_blanks_off(a, s, b);
    assert(unsigned_digits(s) == s);
    lemma_trim_blank(a);
}

/// A file is due from the second on in which the last run began, and later changes make no file less
/// due.
pub proof fn law_later_changes_are_due(modified: u64, later: u64, last_run: u64)
    requires
        modified <= later,
    ensures
        due(last_run, last_run),
        due(modified, last_run) ==> due(later, last_run),
        modified < last_run ==> !due(modified, last_run),
        due(modified, 0),
{
}

proof fn lemma_lower_parts(a: Seq<char>, w: Seq<char>, b: Seq<char>)
    requires
        is_ascii_text(a),
        is_ascii_text(w),
        is_ascii_text(b),
    ensures
        lowercase(a + w + b) == ascii_lower_all(a) + ascii_lower_all(w) + ascii_lower_all(b),
{
    let all = a + w + b;
    assert forall|i: int| 0 <= i < all.len() implies is_ascii_char(#[trigger] all[i]) by {
        if i < a.len() {
            assert(all[i] == a[i]);
        } else if i < a.len() + w.len() {
            assert(all[i] == w[i - a.len()]);
        } else {
            assert(all[i] == b[i - a.len() - w.len()]);
        }
    }
    assert(is_ascii_text(all));
    assert(lowercase(all) =~= ascii_lower_all(a) + ascii_lower_all(w) + ascii_lower_all(b));
}

/// No file is indexed whose path leads through what is built, fetched or kept by the version control,
/// whatever stands before and behind that in the path, and in capitals or small letters.
pub proof fn law_excluded_folders_are_not_indexed(
    a: Seq<char>,
    folder: Seq<char>,
    b: Seq<char>,
    extension: Option<Seq<char>>,
)
    requires
        is_ascii_text(a),
        is_ascii_text(folder),
        is_ascii_text(b),
        seq![
            "textmesh pro"@,
            "node_modules"@,
            "target"@,
            "/.git/"@,
            "\\.git\\"@,
        ].contains(ascii_lower_all(folder)),
    ensures
        !indexable(a + folder + b, extension),
{
    let all = seq![
        "textmesh pro"@,
        "node_modules"@,
        "target"@,
        "/.git/"@,
        "\\.git\\"@,
    ];
    assert(all[0] == "textmesh pro"@);
    assert(all[1] == "node_modules"@);
    assert(all[2] == "target"@);
    assert(all[3] == "/.git/"@);
    assert(all[4] == "\\.git\\"@);
    lemma_lower_parts(a, folder, b);
    let lower = ascii_lower_all(folder);
    lemma_occurs_whole(lower);
    lemma_occurs_between(ascii_lower_all(a), lower, ascii_lower_all(b), lower);
}

/// A file outside of those folders is indexed exactly by its extension, in capitals or small letters;
/// a file without one is not.
pub proof fn law_extension_decides(path: Seq<char>, ext: Seq<char>, other: Seq<char>)
    requires
        !occurs(lowercase(path), "textmesh pro"@),
        !occurs(lowercase(path), "node_modules"@),
        !occurs(lowercase(path), "target"@),
        !occurs(lowercase(path), "/.git/"@),
        !occurs(lowercase(path), "\\.git\\"@),
        is_ascii_text(ext),
        is_ascii_text(other),
        ascii_lower_all(ext) == ascii_lower_all(other),
    ensures
        indexable(path, Some(ext)) == indexed_extension(lowercase(ext)),
        indexable(path, Some(ext)) == indexable(path, Some(other)),
        !indexable(path, None),
{
}

/// A path is stored as it is, but for the prefix of long paths, which makes no difference.
pub proof fn law_prefix_of_long_paths_is_dropped(raw: Seq<char>)
    ensures
        stored_path("\\\\?\\"@ + raw) == stored_path(raw),
        !has_prefix(raw, "\\\\?\\"@) ==> stored_path(raw) == raw,
{
    reveal_strlit("\\\\?\\");
    let long = "\\\\?\\"@ + raw;
    assert(long.take(4) =~= "\\\\?\\"@);
    assert(long.skip(4) =~= raw);
}

proof fn lemma_last_of(a: Seq<char>, c: char, b: Seq<char>)
    requires
        !b.contains(c),
    ensures
        last_position(a + seq![c] + b, c) == a.len(),
    decreases b.len(),
{
    let s = a + seq![c] + b;
    if b.len() > 0 {
        let head = b.drop_last();
        assert(s.drop_last() =~= a + seq![c] + head);
        assert(b.contains(b.last()));
        assert(s.last() == b.last());
        assert(!head.contains(c)) by {
            if head.contains(c) {
                let k = choose|k: int| 0 <= k < head.len() && head[k] == c;
                assert(b[k] == c);
            }
        }
        lemma_last_of(a, c, head);
    } else {
        assert(s.last() == c);
    }
}

/// The extension of a file is what stands behind the last dot of its name, in whatever folder the
/// file is.
pub proof fn law_extension_is_behind_the_last_dot(
    folder: Seq<char>,
    name: Seq<char>,
    ext: Seq<char>,
)
    requires
        name.len() > 0,
        !name.contains('/'),
        !ext.contains('/'),
        !ext.contains('.'),
        name + seq!['.'] + ext != ".."@,
    ensures
        portable_extension(folder + seq!['/'] + (name + seq!['.'] + ext)) == Some(ext),
{
    let file = name + seq!['.'] + ext;
    let path = folder + seq!['/'] + file;
    assert(!file.contains('/')) by {
        if file.contains('/') {
            let k = choose|k: int| 0 <= k < file.len() && file[k] == '/';
            if k < name.len() {
                assert(name[k] == '/');
            } else if k > name.len() {
                assert(ext[k - name.len() - 1] == '/');
            }
        }
    }
    lemma_last_of(folder, '/', file);
    assert(path.skip(folder.len() as int + 1) =~= file);
    reveal_strlit(".");
    lemma_last_of(name, '.', ext);
    assert(file.skip(name.len() as int + 1) =~= ext);
    assert(file.len() >= 2);
}

} // verus!
