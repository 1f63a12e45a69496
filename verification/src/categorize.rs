//! Files by their kind and by their extension.
use vstd::prelude::*;

use crate::model::{totals_fit, CategoryStat, Color, Node};
use crate::scan::SizesTooLarge;
use crate::tables::TextTable;
use crate::text::{chars_of, owned, push_decimal, same_text};
use crate::walk::FileWalker;

verus! {

use crate::model::{
    adds_up,
    file_bytes,
    file_room,
    folder_of,
    folders_total,
    by_size,
    law_new_folder_puts_larger_children_first,
    law_numbers_speak_of_everything_below,
    lemma_by_size_is_preorder,
    logical_total,
    one_per_file,
    sum_over,
    sum_over_all,
    sums_fit,
    trees,
    NodeKind,
    Tree,
};
use crate::order::{lemma_full_range, lemma_sorted, lemma_total_concat, lemma_total_zero, total};
use crate::tables::{distinct, lemma_distinct, lemma_numbered_more, lemma_places, numbered, places};
use crate::text::{all_digits, decimal, law_decimals_read_back, read_decimal};
use crate::walk::{below, files_among, files_of, trimmed, Found};

// ---------------------------------------------------------------------------------------------
// Extensions
// ---------------------------------------------------------------------------------------------

/// The character with ASCII upper case turned to lower case.
pub open spec fn lower(c: char) -> char {
    if 'A' <= c <= 'Z' {
        ((c as int) + 32) as char
    } else {
        c
    }
}

pub open spec fn lower_text(s: Seq<char>) -> Seq<char> {
    s.map_values(|c: char| lower(c))
}

/// Where the last dot of `s` is, or -1.
pub open spec fn last_dot(s: Seq<char>) -> int
    decreases s.len(),
{
    if s.len() == 0 {
        -1
    } else if s.last() == '.' {
        s.len() - 1
    } else {
        last_dot(s.drop_last())
    }
}

/// What stands behind the last dot of a name, in lower case, if there is a dot.
pub open spec fn extension(name: Seq<char>) -> Option<Seq<char>> {
    let i = last_dot(name);
    if i < 0 {
        None
    } else {
        Some(lower_text(name.skip(i + 1)))
    }
}

fn to_lower(c: char) -> (r: char)
    ensures
        r == lower(c),
{
    if 'A' <= c && c <= 'Z' {
        ((c as u32 + 32) as u8) as char
    } else {
        c
    }
}

/// The place of the last dot, and what stands behind it in lower case.
fn split_extension(name: &str) -> (r: Option<(usize, String)>)
    ensures
        match r {
            Some((i, e)) => i == last_dot(name@) && i < name@.len() && Some(e@) == extension(name@)
                && e@.len() == name@.len() - i - 1,
            None => last_dot(name@) < 0,
        },
{
    let v = chars_of(name);
    let mut i: usize = v.len();
    assert(v@.take(i as int) =~= v@);
    while i > 0
        invariant
            i <= v@.len(),
            v@ == name@,
            last_dot(v@) == last_dot(v@.take(i as int)),
        decreases i,
    {
        assert(v@.take(i as int).drop_last() =~= v@.take(i - 1));
        if v[i - 1] == '.' {
            let mut out = String::new();
            let mut k: usize = i;
            while k < v.len()
                invariant
                    0 < i <= k <= v@.len(),
                    out@ =~= lower_text(v@.subrange(i as int, k as int)),
                decreases v@.len() - k,
            {
                assert(v@.subrange(i as int, k + 1) =~= v@.subrange(i as int, k as int).push(v@[k as int]));
                out.push(to_lower(v[k]));
                k = k + 1;
            }
            assert(v@.subrange(i as int, v@.len() as int) =~= v@.skip(i as int));
            return Some((i - 1, out));
        }
        i = i - 1;
    }
    None
}

// ---------------------------------------------------------------------------------------------
// Kinds of files
// ---------------------------------------------------------------------------------------------

pub open spec fn is_video(e: Seq<char>) -> bool {
    e == "mp4"@ || e == "mkv"@ || e == "avi"@ || e == "mov"@ || e == "wmv"@ || e == "flv"@
}

pub open spec fn is_archive(e: Seq<char>) -> bool {
    e == "zip"@ || e == "rar"@ || e == "7z"@ || e == "tar"@ || e == "gz"@ || e == "xz"@
}

pub open spec fn is_program(e: Seq<char>) -> bool {
    e == "exe"@ || e == "msi"@ || e == "dll"@ || e == "bat"@ || e == "sh"@ || e == "app"@
}

pub open spec fn is_document(e: Seq<char>) -> bool {
    e == "doc"@ || e == "docx"@ || e == "pdf"@ || e == "txt"@ || e == "md"@ || e == "xlsx"@ || e == "pptx"@
}

pub open spec fn is_image(e: Seq<char>) -> bool {
    e == "png"@ || e == "jpg"@ || e == "jpeg"@ || e == "gif"@ || e == "bmp"@ || e == "webp"@ || e == "svg"@
}

/// The kind of a file with the given name: a video, an archive, a program, a document, an image,
/// or another file.
pub open spec fn category(name: Seq<char>) -> int {
    match extension(name) {
        Some(e) => if is_video(e) {
            0
        } else if is_archive(e) {
            1
        } else if is_program(e) {
            2
        } else if is_document(e) {
            3
        } else if is_image(e) {
            4
        } else {
            5
        },
        None => 5,
    }
}

/// The kind of a file with the given name.
pub fn classify(name: &str) -> (r: usize)
    ensures
        r == category(name@),
        r < 6,
{
    let e = match split_extension(name) {
        Some((_, e)) => e,
        None => {
            return 5;
        },
    };
    let e = e.as_str();
    if same_text(e, "mp4") || same_text(e, "mkv") || same_text(e, "avi") || same_text(e, "mov") || same_text(
        e,
        "wmv",
    ) || same_text(e, "flv") {
        0
    } else if same_text(e, "zip") || same_text(e, "rar") || same_text(e, "7z") || same_text(e, "tar")
        || same_text(e, "gz") || same_text(e, "xz") {
        1
    } else if same_text(e, "exe") || same_text(e, "msi") || same_text(e, "dll") || same_text(e, "bat")
        || same_text(e, "sh") || same_text(e, "app") {
        2
    } else if same_text(e, "doc") || same_text(e, "docx") || same_text(e, "pdf") || same_text(e, "txt")
        || same_text(e, "md") || same_text(e, "xlsx") || same_text(e, "pptx") {
        3
    } else if same_text(e, "png") || same_text(e, "jpg") || same_text(e, "jpeg") || same_text(e, "gif")
        || same_text(e, "bmp") || same_text(e, "webp") || same_text(e, "svg") {
        4
    } else {
        5
    }
}

/// Behind a dot, a text without dots is the extension.
proof fn lemma_extension_behind_dot(s: Seq<char>, e: Seq<char>)
    requires
        forall|i: int| 0 <= i < e.len() ==> #[trigger] e[i] != '.',
    ensures
        last_dot(s + seq!['.'] + e) == s.len(),
        extension(s + seq!['.'] + e) == Some(lower_text(e)),
    decreases e.len(),
{
    let name = s + seq!['.'] + e;
    if e.len() == 0 {
        assert(name.last() == '.');
    } else {
        assert(name.last() == e.last());
        assert(e[e.len() - 1] != '.');
        assert(name.drop_last() =~= s + seq!['.'] + e.drop_last());
        lemma_extension_behind_dot(s, e.drop_last());
    }
    assert(name.skip(s.len() as int + 1) =~= e);
}

/// The same for an extension in lower case that is written with its dot.
proof fn lemma_lower_extension(s: Seq<char>, dotted: Seq<char>, e: Seq<char>)
    requires
        dotted == seq!['.'] + e,
        forall|i: int| 0 <= i < e.len() ==> #[trigger] e[i] != '.' && !('A' <= e[i] <= 'Z'),
    ensures
        extension(s + dotted) == Some(e),
{
    assert(s + dotted =~= s + seq!['.'] + e);
    lemma_extension_behind_dot(s, e);
    assert(lower_text(e) =~= e);
}

/// How the extensions of videos are spelled.
proof fn lemma_spelling_of_videos()
    ensures
        "mp4"@.len() == 3 && "mp4"@[0] == 'm' && "mp4"@[1] == 'p' && "mp4"@[2] == '4',
        "mkv"@.len() == 3 && "mkv"@[0] == 'm' && "mkv"@[1] == 'k' && "mkv"@[2] == 'v',
        "avi"@.len() == 3 && "avi"@[0] == 'a' && "avi"@[1] == 'v' && "avi"@[2] == 'i',
        "mov"@.len() == 3 && "mov"@[0] == 'm' && "mov"@[1] == 'o' && "mov"@[2] == 'v',
        "wmv"@.len() == 3 && "wmv"@[0] == 'w' && "wmv"@[1] == 'm' && "wmv"@[2] == 'v',
        "flv"@.len() == 3 && "flv"@[0] == 'f' && "flv"@[1] == 'l' && "flv"@[2] == 'v',
{
    reveal_strlit("mp4");
    reveal_strlit("mkv");
    reveal_strlit("avi");
    reveal_strlit("mov");
    reveal_strlit("wmv");
    reveal_strlit("flv");
}

/// How the extensions of archives are spelled.
proof fn lemma_spelling_of_archives()
    ensures
        "zip"@.len() == 3 && "zip"@[0] == 'z' && "zip"@[1] == 'i' && "zip"@[2] == 'p',
        "rar"@.len() == 3 && "rar"@[0] == 'r' && "rar"@[1] == 'a' && "rar"@[2] == 'r',
        "7z"@.len() == 2 && "7z"@[0] == '7' && "7z"@[1] == 'z',
        "tar"@.len() == 3 && "tar"@[0] == 't' && "tar"@[1] == 'a' && "tar"@[2] == 'r',
        "gz"@.len() == 2 && "gz"@[0] == 'g' && "gz"@[1] == 'z',
        "xz"@.len() == 2 && "xz"@[0] == 'x' && "xz"@[1] == 'z',
{
    reveal_strlit("zip");
    reveal_strlit("rar");
    reveal_strlit("7z");
    reveal_strlit("tar");
    reveal_strlit("gz");
    reveal_strlit("xz");
}

/// How the extensions of programs are spelled.
proof fn lemma_spelling_of_programs()
    ensures
        "exe"@.len() == 3 && "exe"@[0] == 'e' && "exe"@[1] == 'x' && "exe"@[2] == 'e',
        "msi"@.len() == 3 && "msi"@[0] == 'm' && "msi"@[1] == 's' && "msi"@[2] == 'i',
        "dll"@.len() == 3 && "dll"@[0] == 'd' && "dll"@[1] == 'l' && "dll"@[2] == 'l',
        "bat"@.len() == 3 && "bat"@[0] == 'b' && "bat"@[1] == 'a' && "bat"@[2] == 't',
        "sh"@.len() == 2 && "sh"@[0] == 's' && "sh"@[1] == 'h',
        "app"@.len() == 3 && "app"@[0] == 'a' && "app"@[1] == 'p' && "app"@[2] == 'p',
{
    reveal_strlit("exe");
    reveal_strlit("msi");
    reveal_strlit("dll");
    reveal_strlit("bat");
    reveal_strlit("sh");
    reveal_strlit("app");
}

/// How the extensions of documents are spelled.
proof fn lemma_spelling_of_documents()
    ensures
        "doc"@.len() == 3 && "doc"@[0] == 'd' && "doc"@[1] == 'o' && "doc"@[2] == 'c',
        "docx"@.len() == 4 && "docx"@[0] == 'd' && "docx"@[1] == 'o' && "docx"@[2] == 'c' && "docx"@[3] == 'x',
        "pdf"@.len() == 3 && "pdf"@[0] == 'p' && "pdf"@[1] == 'd' && "pdf"@[2] == 'f',
        "txt"@.len() == 3 && "txt"@[0] == 't' && "txt"@[1] == 'x' && "txt"@[2] == 't',
        "md"@.len() == 2 && "md"@[0] == 'm' && "md"@[1] == 'd',
        "xlsx"@.len() == 4 && "xlsx"@[0] == 'x' && "xlsx"@[1] == 'l' && "xlsx"@[2] == 's' && "xlsx"@[3] == 'x',
        "pptx"@.len() == 4 && "pptx"@[0] == 'p' && "pptx"@[1] == 'p' && "pptx"@[2] == 't' && "pptx"@[3] == 'x',
{
    reveal_strlit("doc");
    reveal_strlit("docx");
    reveal_strlit("pdf");
    reveal_strlit("txt");
    reveal_strlit("md");
    reveal_strlit("xlsx");
    reveal_strlit("pptx");
}

/// How the extensions of images are spelled.
proof fn lemma_spelling_of_images()
    ensures
        "png"@.len() == 3 && "png"@[0] == 'p' && "png"@[1] == 'n' && "png"@[2] == 'g',
        "jpg"@.len() == 3 && "jpg"@[0] == 'j' && "jpg"@[1] == 'p' && "jpg"@[2] == 'g',
        "jpeg"@.len() == 4 && "jpeg"@[0] == 'j' && "jpeg"@[1] == 'p' && "jpeg"@[2] == 'e' && "jpeg"@[3] == 'g',
        "gif"@.len() == 3 && "gif"@[0] == 'g' && "gif"@[1] == 'i' && "gif"@[2] == 'f',
        "bmp"@.len() == 3 && "bmp"@[0] == 'b' && "bmp"@[1] == 'm' && "bmp"@[2] == 'p',
        "webp"@.len() == 4 && "webp"@[0] == 'w' && "webp"@[1] == 'e' && "webp"@[2] == 'b' && "webp"@[3] == 'p',
        "svg"@.len() == 3 && "svg"@[0] == 's' && "svg"@[1] == 'v' && "svg"@[2] == 'g',
{
    reveal_strlit("png");
    reveal_strlit("jpg");
    reveal_strlit("jpeg");
    reveal_strlit("gif");
    reveal_strlit("bmp");
    reveal_strlit("webp");
    reveal_strlit("svg");
}

/// Whatever stands before it, a name with one of the extensions of videos is of kind 0.
pub proof fn law_videos_are_known_by_their_extension(s: Seq<char>)
    ensures
        category(s + ".mp4"@) == 0,
        category(s + ".mkv"@) == 0,
        category(s + ".avi"@) == 0,
        category(s + ".mov"@) == 0,
        category(s + ".wmv"@) == 0,
        category(s + ".flv"@) == 0,
{
    lemma_spelling_of_videos();
    reveal_strlit(".mp4");
    assert(".mp4"@ =~= seq!['.'] + "mp4"@);
    lemma_lower_extension(s, ".mp4"@, "mp4"@);
    reveal_strlit(".mkv");
    assert(".mkv"@ =~= seq!['.'] + "mkv"@);
    lemma_lower_extension(s, ".mkv"@, "mkv"@);
    reveal_strlit(".avi");
    assert(".avi"@ =~= seq!['.'] + "avi"@);
    lemma_lower_extension(s, ".avi"@, "avi"@);
    reveal_strlit(".mov");
    assert(".mov"@ =~= seq!['.'] + "mov"@);
    lemma_lower_extension(s, ".mov"@, "mov"@);
    reveal_strlit(".wmv");
    assert(".wmv"@ =~= seq!['.'] + "wmv"@);
    lemma_lower_extension(s, ".wmv"@, "wmv"@);
    reveal_strlit(".flv");
    assert(".flv"@ =~= seq!['.'] + "flv"@);
    lemma_lower_extension(s, ".flv"@, "flv"@);
}

/// Whatever stands before it, a name with one of the extensions of archives is of kind 1.
pub proof fn law_archives_are_known_by_their_extension(s: Seq<char>)
    ensures
        category(s + ".zip"@) == 1,
        category(s + ".rar"@) == 1,
        category(s + ".7z"@) == 1,
        category(s + ".tar"@) == 1,
        category(s + ".gz"@) == 1,
        category(s + ".xz"@) == 1,
{
    lemma_spelling_of_videos();
    lemma_spelling_of_archives();
    reveal_strlit(".zip");
    assert(".zip"@ =~= seq!['.'] + "zip"@);
    lemma_lower_extension(s, ".zip"@, "zip"@);
    reveal_strlit(".rar");
    assert(".rar"@ =~= seq!['.'] + "rar"@);
    lemma_lower_extension(s, ".rar"@, "rar"@);
    reveal_strlit(".7z");
    assert(".7z"@ =~= seq!['.'] + "7z"@);
    lemma_lower_extension(s, ".7z"@, "7z"@);
    reveal_strlit(".tar");
    assert(".tar"@ =~= seq!['.'] + "tar"@);
    lemma_lower_extension(s, ".tar"@, "tar"@);
    reveal_strlit(".gz");
    assert(".gz"@ =~= seq!['.'] + "gz"@);
    lemma_lower_extension(s, ".gz"@, "gz"@);
    reveal_strlit(".xz");
    assert(".xz"@ =~= seq!['.'] + "xz"@);
    lemma_lower_extension(s, ".xz"@, "xz"@);
}

/// Whatever stands before it, a name with one of the extensions of programs is of kind 2.
pub proof fn law_programs_are_known_by_their_extension(s: Seq<char>)
    ensures
        category(s + ".exe"@) == 2,
        category(s + ".msi"@) == 2,
        category(s + ".dll"@) == 2,
        category(s + ".bat"@) == 2,
        category(s + ".sh"@) == 2,
        category(s + ".app"@) == 2,
{
    lemma_spelling_of_videos();
    lemma_spelling_of_archives();
    lemma_spelling_of_programs();
    reveal_strlit(".exe");
    assert(".exe"@ =~= seq!['.'] + "exe"@);
    lemma_lower_extension(s, ".exe"@, "exe"@);
    reveal_strlit(".msi");
    assert(".msi"@ =~= seq!['.'] + "msi"@);
    lemma_lower_extension(s, ".msi"@, "msi"@);
    reveal_strlit(".dll");
    assert(".dll"@ =~= seq!['.'] + "dll"@);
    lemma_lower_extension(s, ".dll"@, "dll"@);
    reveal_strlit(".bat");
    assert(".bat"@ =~= seq!['.'] + "bat"@);
    lemma_lower_extension(s, ".bat"@, "bat"@);
    reveal_strlit(".sh");
    assert(".sh"@ =~= seq!['.'] + "sh"@);
    lemma_lower_extension(s, ".sh"@, "sh"@);
    reveal_strlit(".app");
    assert(".app"@ =~= seq!['.'] + "app"@);
    lemma_lower_extension(s, ".app"@, "app"@);
}

/// Whatever stands before it, a name with one of the extensions of documents is of kind 3.
pub proof fn law_documents_are_known_by_their_extension(s: Seq<char>)
    ensures
        category(s + ".doc"@) == 3,
        category(s + ".docx"@) == 3,
        category(s + ".pdf"@) == 3,
        category(s + ".txt"@) == 3,
        category(s + ".md"@) == 3,
        category(s + ".xlsx"@) == 3,
        category(s + ".pptx"@) == 3,
{
    lemma_spelling_of_videos();
    lemma_spelling_of_archives();
    lemma_spelling_of_programs();
    lemma_spelling_of_documents();
    reveal_strlit(".doc");
    assert(".doc"@ =~= seq!['.'] + "doc"@);
    lemma_lower_extension(s, ".doc"@, "doc"@);
    reveal_strlit(".docx");
    assert(".docx"@ =~= seq!['.'] + "docx"@);
    lemma_lower_extension(s, ".docx"@, "docx"@);
    reveal_strlit(".pdf");
    assert(".pdf"@ =~= seq!['.'] + "pdf"@);
    lemma_lower_extension(s, ".pdf"@, "pdf"@);
    reveal_strlit(".txt");
    assert(".txt"@ =~= seq!['.'] + "txt"@);
    lemma_lower_extension(s, ".txt"@, "txt"@);
    reveal_strlit(".md");
    assert(".md"@ =~= seq!['.'] + "md"@);
    lemma_lower_extension(s, ".md"@, "md"@);
    reveal_strlit(".xlsx");
    assert(".xlsx"@ =~= seq!['.'] + "xlsx"@);
    lemma_lower_extension(s, ".xlsx"@, "xlsx"@);
    reveal_strlit(".pptx");
    assert(".pptx"@ =~= seq!['.'] + "pptx"@);
    lemma_lower_extension(s, ".pptx"@, "pptx"@);
}

/// Whatever stands before it, a name with one of the extensions of images is of kind 4.
pub proof fn law_images_are_known_by_their_extension(s: Seq<char>)
    ensures
        category(s + ".png"@) == 4,
        category(s + ".jpg"@) == 4,
        category(s + ".jpeg"@) == 4,
        category(s + ".gif"@) == 4,
        category(s + ".bmp"@) == 4,
        category(s + ".webp"@) == 4,
        category(s + ".svg"@) == 4,
{
    lemma_spelling_of_videos();
    lemma_spelling_of_archives();
    lemma_spelling_of_programs();
    lemma_spelling_of_documents();
    lemma_spelling_of_images();
    reveal_strlit(".png");
    assert(".png"@ =~= seq!['.'] + "png"@);
    lemma_lower_extension(s, ".png"@, "png"@);
    reveal_strlit(".jpg");
    assert(".jpg"@ =~= seq!['.'] + "jpg"@);
    lemma_lower_extension(s, ".jpg"@, "jpg"@);
    reveal_strlit(".jpeg");
    assert(".jpeg"@ =~= seq!['.'] + "jpeg"@);
    lemma_lower_extension(s, ".jpeg"@, "jpeg"@);
    reveal_strlit(".gif");
    assert(".gif"@ =~= seq!['.'] + "gif"@);
    lemma_lower_extension(s, ".gif"@, "gif"@);
    reveal_strlit(".bmp");
    assert(".bmp"@ =~= seq!['.'] + "bmp"@);
    lemma_lower_extension(s, ".bmp"@, "bmp"@);
    reveal_strlit(".webp");
    assert(".webp"@ =~= seq!['.'] + "webp"@);
    lemma_lower_extension(s, ".webp"@, "webp"@);
    reveal_strlit(".svg");
    assert(".svg"@ =~= seq!['.'] + "svg"@);
    lemma_lower_extension(s, ".svg"@, "svg"@);
}

/// Whether `a` and `b` are the same letter, one of them perhaps in upper case.
pub open spec fn same_letter(a: char, b: char) -> bool {
    ||| a == b
    ||| 'A' <= a <= 'Z' && b as int == a as int + ('a' as int - 'A' as int)
    ||| 'A' <= b <= 'Z' && a as int == b as int + ('a' as int - 'A' as int)
}

/// Whether `a` and `b` read the same but for upper and lower case of ASCII letters.
pub open spec fn same_letters(a: Seq<char>, b: Seq<char>) -> bool {
    a.len() == b.len() && forall|i: int| 0 <= i < a.len() ==> same_letter(#[trigger] a[i], b[i])
}

/// Whether `name` ends in `end`, but for upper and lower case.
pub open spec fn ends_in(name: Seq<char>, end: Seq<char>) -> bool {
    name.len() >= end.len() && same_letters(name.skip(name.len() - end.len()), end)
}

proof fn lemma_same_lower(a: char, b: char)
    ensures
        same_letter(a, b) <==> lower(a) == lower(b),
{
}

proof fn lemma_same_dots(a: Seq<char>, b: Seq<char>)
    requires
        same_letters(a, b),
    ensures
        last_dot(a) == last_dot(b),
    decreases a.len(),
{
    if a.len() > 0 {
        let k = a.len() - 1;
        assert(same_letter(a[k], b[k]));
        assert forall|i: int| 0 <= i < k implies same_letter(#[trigger] a.drop_last()[i], b.drop_last()[i]) by {
            assert(same_letter(a[i], b[i]));
        }
        lemma_same_dots(a.drop_last(), b.drop_last());
    }
}

proof fn lemma_last_dot_bounds(s: Seq<char>)
    ensures
        -1 <= last_dot(s) < s.len(),
        last_dot(s) >= 0 ==> s[last_dot(s)] == '.',
        forall|i: int| last_dot(s) < i < s.len() ==> #[trigger] s[i] != '.',
    decreases s.len(),
{
    if s.len() > 0 && s.last() != '.' {
        lemma_last_dot_bounds(s.drop_last());
        assert forall|i: int| last_dot(s) < i < s.len() implies #[trigger] s[i] != '.' by {
            if i < s.len() - 1 {
                assert(s.drop_last()[i] == s[i]);
            }
        }
    }
}

/// Upper and lower case do not matter: two names that differ in nothing else are of the same kind.
pub proof fn law_kinds_ignore_case(a: Seq<char>, b: Seq<char>)
    requires
        same_letters(a, b),
    ensures
        category(a) == category(b),
{
    lemma_same_dots(a, b);
    lemma_last_dot_bounds(a);
    let i = last_dot(a);
    if i >= 0 {
        assert forall|k: int| 0 <= k < a.skip(i + 1).len() implies lower(#[trigger] a.skip(i + 1)[k]) == lower(
            b.skip(i + 1)[k],
        ) by {
            assert(same_letter(a[i + 1 + k], b[i + 1 + k]));
            lemma_same_lower(a[i + 1 + k], b[i + 1 + k]);
        }
        assert(lower_text(a.skip(i + 1)) =~= lower_text(b.skip(i + 1)));
    }
}

/// A name with a given extension in lower case ends in it.
proof fn lemma_ends_in(name: Seq<char>, dotted: Seq<char>, e: Seq<char>)
    requires
        extension(name) == Some(e),
        dotted == seq!['.'] + e,
        forall|i: int| 0 <= i < e.len() ==> !('A' <= #[trigger] e[i] <= 'Z'),
    ensures
        ends_in(name, dotted),
{
    lemma_last_dot_bounds(name);
    let i = last_dot(name);
    let rest = name.skip(i + 1);
    assert(lower_text(rest).len() == rest.len());
    let end = name.skip(name.len() - dotted.len());
    assert forall|k: int| 0 <= k < end.len() implies same_letter(#[trigger] end[k], dotted[k]) by {
        if k > 0 {
            assert(dotted[k] == e[k - 1]);
            assert(lower_text(rest)[k - 1] == lower(rest[k - 1]));
            assert(end[k] == rest[k - 1]);
            lemma_same_lower(end[k], dotted[k]);
        }
    }
}

/// Only names that end in one of the extensions of videos are of kind 0.
pub proof fn law_only_videos_have_their_kind(name: Seq<char>)
    requires
        category(name) == 0,
    ensures
        ends_in(name, ".mp4"@)
            || ends_in(name, ".mkv"@)
            || ends_in(name, ".avi"@)
            || ends_in(name, ".mov"@)
            || ends_in(name, ".wmv"@)
            || ends_in(name, ".flv"@),
{
    let e = extension(name)->0;
    reveal_strlit("mp4");
    reveal_strlit(".mp4");
    assert(".mp4"@ =~= seq!['.'] + "mp4"@);
    reveal_strlit("mkv");
    reveal_strlit(".mkv");
    assert(".mkv"@ =~= seq!['.'] + "mkv"@);
    reveal_strlit("avi");
    reveal_strlit(".avi");
    assert(".avi"@ =~= seq!['.'] + "avi"@);
    reveal_strlit("mov");
    reveal_strlit(".mov");
    assert(".mov"@ =~= seq!['.'] + "mov"@);
    reveal_strlit("wmv");
    reveal_strlit(".wmv");
    assert(".wmv"@ =~= seq!['.'] + "wmv"@);
    reveal_strlit("flv");
    reveal_strlit(".flv");
    assert(".flv"@ =~= seq!['.'] + "flv"@);
    if e == "mp4"@ {
        lemma_ends_in(name, ".mp4"@, e);
    }
    if e == "mkv"@ {
        lemma_ends_in(name, ".mkv"@, e);
    }
    if e == "avi"@ {
        lemma_ends_in(name, ".avi"@, e);
    }
    if e == "mov"@ {
        lemma_ends_in(name, ".mov"@, e);
    }
    if e == "wmv"@ {
        lemma_ends_in(name, ".wmv"@, e);
    }
    if e == "flv"@ {
        lemma_ends_in(name, ".flv"@, e);
    }
}

/// Only names that end in one of the extensions of archives are of kind 1.
pub proof fn law_only_archives_have_their_kind(name: Seq<char>)
    requires
        category(name) == 1,
    ensures
        ends_in(name, ".zip"@)
            || ends_in(name, ".rar"@)
            || ends_in(name, ".7z"@)
            || ends_in(name, ".tar"@)
            || ends_in(name, ".gz"@)
            || ends_in(name, ".xz"@),
{
    let e = extension(name)->0;
    reveal_strlit("zip");
    reveal_strlit(".zip");
    assert(".zip"@ =~= seq!['.'] + "zip"@);
    reveal_strlit("rar");
    reveal_strlit(".rar");
    assert(".rar"@ =~= seq!['.'] + "rar"@);
    reveal_strlit("7z");
    reveal_strlit(".7z");
    assert(".7z"@ =~= seq!['.'] + "7z"@);
    reveal_strlit("tar");
    reveal_strlit(".tar");
    assert(".tar"@ =~= seq!['.'] + "tar"@);
    reveal_strlit("gz");
    reveal_strlit(".gz");
    assert(".gz"@ =~= seq!['.'] + "gz"@);
    reveal_strlit("xz");
    reveal_strlit(".xz");
    assert(".xz"@ =~= seq!['.'] + "xz"@);
    if e == "zip"@ {
        lemma_ends_in(name, ".zip"@, e);
    }
    if e == "rar"@ {
        lemma_ends_in(name, ".rar"@, e);
    }
    if e == "7z"@ {
        lemma_ends_in(name, ".7z"@, e);
    }
    if e == "tar"@ {
        lemma_ends_in(name, ".tar"@, e);
    }
    if e == "gz"@ {
        lemma_ends_in(name, ".gz"@, e);
    }
    if e == "xz"@ {
        lemma_ends_in(name, ".xz"@, e);
    }
}

/// Only names that end in one of the extensions of programs are of kind 2.
pub proof fn law_only_programs_have_their_kind(name: Seq<char>)
    requires
        category(name) == 2,
    ensures
        ends_in(name, ".exe"@)
            || ends_in(name, ".msi"@)
            || ends_in(name, ".dll"@)
            || ends_in(name, ".bat"@)
            || ends_in(name, ".sh"@)
            || ends_in(name, ".app"@),
{
    let e = extension(name)->0;
    reveal_strlit("exe");
    reveal_strlit(".exe");
    assert(".exe"@ =~= seq!['.'] + "exe"@);
    reveal_strlit("msi");
    reveal_strlit(".msi");
    assert(".msi"@ =~= seq!['.'] + "msi"@);
    reveal_strlit("dll");
    reveal_strlit(".dll");
    assert(".dll"@ =~= seq!['.'] + "dll"@);
    reveal_strlit("bat");
    reveal_strlit(".bat");
    assert(".bat"@ =~= seq!['.'] + "bat"@);
    reveal_strlit("sh");
    reveal_strlit(".sh");
    assert(".sh"@ =~= seq!['.'] + "sh"@);
    reveal_strlit("app");
    reveal_strlit(".app");
    assert(".app"@ =~= seq!['.'] + "app"@);
    if e == "exe"@ {
        lemma_ends_in(name, ".exe"@, e);
    }
    if e == "msi"@ {
        lemma_ends_in(name, ".msi"@, e);
    }
    if e == "dll"@ {
        lemma_ends_in(name, ".dll"@, e);
    }
    if e == "bat"@ {
        lemma_ends_in(name, ".bat"@, e);
    }
    if e == "sh"@ {
        lemma_ends_in(name, ".sh"@, e);
    }
    if e == "app"@ {
        lemma_ends_in(name, ".app"@, e);
    }
}

/// Only names that end in one of the extensions of documents are of kind 3.
pub proof fn law_only_documents_have_their_kind(name: Seq<char>)
    requires
        category(name) == 3,
    ensures
        ends_in(name, ".doc"@)
            || ends_in(name, ".docx"@)
            || ends_in(name, ".pdf"@)
            || ends_in(name, ".txt"@)
            || ends_in(name, ".md"@)
            || ends_in(name, ".xlsx"@)
            || ends_in(name, ".pptx"@),
{
    let e = extension(name)->0;
    reveal_strlit("doc");
    reveal_strlit(".doc");
    assert(".doc"@ =~= seq!['.'] + "doc"@);
    reveal_strlit("docx");
    reveal_strlit(".docx");
    assert(".docx"@ =~= seq!['.'] + "docx"@);
    reveal_strlit("pdf");
    reveal_strlit(".pdf");
    assert(".pdf"@ =~= seq!['.'] + "pdf"@);
    reveal_strlit("txt");
    reveal_strlit(".txt");
    assert(".txt"@ =~= seq!['.'] + "txt"@);
    reveal_strlit("md");
    reveal_strlit(".md");
    assert(".md"@ =~= seq!['.'] + "md"@);
    reveal_strlit("xlsx");
    reveal_strlit(".xlsx");
    assert(".xlsx"@ =~= seq!['.'] + "xlsx"@);
    reveal_strlit("pptx");
    reveal_strlit(".pptx");
    assert(".pptx"@ =~= seq!['.'] + "pptx"@);
    if e == "doc"@ {
        lemma_ends_in(name, ".doc"@, e);
    }
    if e == "docx"@ {
        lemma_ends_in(name, ".docx"@, e);
    }
    if e == "pdf"@ {
        lemma_ends_in(name, ".pdf"@, e);
    }
    if e == "txt"@ {
        lemma_ends_in(name, ".txt"@, e);
    }
    if e == "md"@ {
        lemma_ends_in(name, ".md"@, e);
    }
    if e == "xlsx"@ {
        lemma_ends_in(name, ".xlsx"@, e);
    }
    if e == "pptx"@ {
        lemma_ends_in(name, ".pptx"@, e);
    }
}

/// Only names that end in one of the extensions of images are of kind 4.
pub proof fn law_only_images_have_their_kind(name: Seq<char>)
    requires
        category(name) == 4,
    ensures
        ends_in(name, ".png"@)
            || ends_in(name, ".jpg"@)
            || ends_in(name, ".jpeg"@)
            || ends_in(name, ".gif"@)
            || ends_in(name, ".bmp"@)
            || ends_in(name, ".webp"@)
            || ends_in(name, ".svg"@),
{
    let e = extension(name)->0;
    reveal_strlit("png");
    reveal_strlit(".png");
    assert(".png"@ =~= seq!['.'] + "png"@);
    reveal_strlit("jpg");
    reveal_strlit(".jpg");
    assert(".jpg"@ =~= seq!['.'] + "jpg"@);
    reveal_strlit("jpeg");
    reveal_strlit(".jpeg");
    assert(".jpeg"@ =~= seq!['.'] + "jpeg"@);
    reveal_strlit("gif");
    reveal_strlit(".gif");
    assert(".gif"@ =~= seq!['.'] + "gif"@);
    reveal_strlit("bmp");
    reveal_strlit(".bmp");
    assert(".bmp"@ =~= seq!['.'] + "bmp"@);
    reveal_strlit("webp");
    reveal_strlit(".webp");
    assert(".webp"@ =~= seq!['.'] + "webp"@);
    reveal_strlit("svg");
    reveal_strlit(".svg");
    assert(".svg"@ =~= seq!['.'] + "svg"@);
    if e == "png"@ {
        lemma_ends_in(name, ".png"@, e);
    }
    if e == "jpg"@ {
        lemma_ends_in(name, ".jpg"@, e);
    }
    if e == "jpeg"@ {
        lemma_ends_in(name, ".jpeg"@, e);
    }
    if e == "gif"@ {
        lemma_ends_in(name, ".gif"@, e);
    }
    if e == "bmp"@ {
        lemma_ends_in(name, ".bmp"@, e);
    }
    if e == "webp"@ {
        lemma_ends_in(name, ".webp"@, e);
    }
    if e == "svg"@ {
        lemma_ends_in(name, ".svg"@, e);
    }
}

/// A file is of one of the six kinds, and of the last where its name has no dot.
pub proof fn law_names_without_extension_are_others(name: Seq<char>)
    ensures
        0 <= category(name) < 6,
        (forall|i: int| 0 <= i < name.len() ==> #[trigger] name[i] != '.') ==> category(name) == 5,
{
    lemma_last_dot_bounds(name);
}

/// The size of a file that is of kind `c`, else 0.
pub open spec fn bytes_of(c: int) -> spec_fn(Found) -> nat {
    |f: Found|
        if category(f.file.name) == c {
            f.file.logical_size as nat
        } else {
            0
        }
}

/// How many bytes the files of kind `c` at and below `t` have together.
pub open spec fn category_total(t: Tree, c: int) -> nat {
    total(files_of(t, Seq::empty()), bytes_of(c))
}

/// Whether the bytes of every kind of files can be counted in 64 bits.
pub open spec fn categories_fit(t: Tree) -> bool {
    forall|c: int| 0 <= c < 6 ==> #[trigger] category_total(t, c) <= u64::MAX
}

/// Sums up the bytes of each kind of files.
fn accumulate(node: &Node) -> (r: Result<Vec<u64>, SizesTooLarge>)
    ensures
        match r {
            Ok(v) => v@.len() == 6 && categories_fit(node@) && forall|c: int|
                0 <= c < 6 ==> #[trigger] v@[c] == category_total(node@, c),
            Err(_) => !categories_fit(node@),
        },
{
    let ghost fs = files_of(node@, Seq::empty());
    let mut totals: Vec<u64> = Vec::new();
    let mut k: usize = 0;
    while k < 6
        invariant
            k <= 6,
            totals@.len() == k,
            forall|c: int| 0 <= c < k ==> #[trigger] totals@[c] == 0,
        decreases 6 - k,
    {
        totals.push(0);
        k = k + 1;
    }
    let mut walker = FileWalker::new(node, "");
    let ghost mut done: int = 0;
    proof {
        reveal_strlit("");
        assert(trimmed(""@) =~= Seq::empty());
        assert(fs.skip(0) =~= fs);
        assert(fs.take(0) =~= Seq::empty());
    }
    loop
        invariant
            fs == files_of(node@, Seq::empty()),
            0 <= done <= fs.len(),
            walker.left() == fs.skip(done),
            totals@.len() == 6,
            forall|c: int| 0 <= c < 6 ==> #[trigger] totals@[c] == total(fs.take(done), bytes_of(c)),
        ensures
            done == fs.len(),
        decreases walker.left().len(),
    {
        match walker.next() {
            Some((file, _)) => {
                let c: usize = classify(file.name.as_str());
                let ghost before = totals@;
                proof {
                    assert(fs.take(done + 1).drop_last() =~= fs.take(done));
                    assert(fs.take(done + 1).last() == fs[done]);
                    assert(fs[done].file == file@);
                }
                match totals[c].checked_add(file.logical_size) {
                    Some(sum) => {
                        totals[c] = sum;
                    },
                    None => {
                        proof {
                            crate::model::lemma_total_grows(fs, bytes_of(c as int), done + 1);
                            assert(category_total(node@, c as int) > u64::MAX);
                        }
                        return Err(SizesTooLarge);
                    },
                }
                proof {
                    assert forall|x: int| 0 <= x < 6 implies #[trigger] totals@[x] == total(
                        fs.take(done + 1),
                        bytes_of(x),
                    ) by {
                        assert(before[x] == total(fs.take(done), bytes_of(x)));
                    }
                    done = done + 1;
                    assert(walker.left() =~= fs.skip(done));
                }
            },
            None => {
                break;
            },
        }
    }
    proof {
        assert(fs.take(done) =~= fs);
        assert forall|c: int| 0 <= c < 6 implies #[trigger] category_total(node@, c) <= u64::MAX by {
            assert(totals@[c] == category_total(node@, c));
        }
    }
    Ok(totals)
}

pub open spec fn category_label(c: int) -> Seq<char> {
    if c == 0 {
        "视频"@
    } else if c == 1 {
        "压缩包"@
    } else if c == 2 {
        "程序/exe"@
    } else if c == 3 {
        "文档"@
    } else if c == 4 {
        "图片"@
    } else {
        "其他"@
    }
}

pub open spec fn category_color(c: int) -> Color {
    if c == 0 {
        Color { r: 0xE0, g: 0x55, b: 0x5B }
    } else if c == 1 {
        Color { r: 0xF5, g: 0xA6, b: 0x23 }
    } else if c == 2 {
        Color { r: 0x4C, g: 0x8B, b: 0xF5 }
    } else if c == 3 {
        Color { r: 0x34, g: 0xC7, b: 0x59 }
    } else if c == 4 {
        Color { r: 0x9C, g: 0x6A, b: 0xDE }
    } else {
        Color { r: 0x6C, g: 0x75, b: 0x7D }
    }
}

fn label_of(c: usize) -> (r: &'static str)
    ensures
        r@ == category_label(c as int),
{
    if c == 0 {
        "视频"
    } else if c == 1 {
        "压缩包"
    } else if c == 2 {
        "程序/exe"
    } else if c == 3 {
        "文档"
    } else if c == 4 {
        "图片"
    } else {
        "其他"
    }
}

fn color_of(c: usize) -> (r: Color)
    ensures
        r == category_color(c as int),
{
    if c == 0 {
        Color { r: 0xE0, g: 0x55, b: 0x5B }
    } else if c == 1 {
        Color { r: 0xF5, g: 0xA6, b: 0x23 }
    } else if c == 2 {
        Color { r: 0x4C, g: 0x8B, b: 0xF5 }
    } else if c == 3 {
        Color { r: 0x34, g: 0xC7, b: 0x59 }
    } else if c == 4 {
        Color { r: 0x9C, g: 0x6A, b: 0xDE }
    } else {
        Color { r: 0x6C, g: 0x75, b: 0x7D }
    }
}

/// How much there is of each kind of files at and below `root`. There is no answer exactly if some
/// kind has more bytes than can be counted.
pub fn compute_categories(root: &Node) -> (r: Result<Vec<CategoryStat>, SizesTooLarge>)
    ensures
        match r {
            Ok(v) => categories_fit(root@) && v@.len() == 6 && forall|c: int|
                0 <= c < 6 ==> (#[trigger] v@[c]).label@ == category_label(c) && v@[c].color == category_color(c)
                    && v@[c].size == category_total(root@, c),
            Err(_) => !categories_fit(root@),
        },
{
    let totals = match accumulate(root) {
        Ok(t) => t,
        Err(e) => {
            return Err(e);
        },
    };
    let mut out: Vec<CategoryStat> = Vec::new();
    let mut c: usize = 0;
    while c < 6
        invariant
            c <= 6,
            totals@.len() == 6,
            forall|k: int| 0 <= k < 6 ==> #[trigger] totals@[k] == category_total(root@, k),
            out@.len() == c,
            forall|k: int|
                0 <= k < c ==> (#[trigger] out@[k]).label@ == category_label(k) && out@[k].color
                    == category_color(k) && out@[k].size == category_total(root@, k),
        decreases 6 - c,
    {
        out.push(CategoryStat { label: label_of(c), size: totals[c], color: color_of(c) });
        c = c + 1;
    }
    Ok(out)
}

/// The size of a file.
pub open spec fn found_bytes() -> spec_fn(Found) -> nat {
    |f: Found| f.file.logical_size as nat
}

proof fn lemma_kinds_make_up(fs: Seq<Found>)
    ensures
        total(fs, found_bytes()) == total(fs, bytes_of(0)) + total(fs, bytes_of(1)) + total(fs, bytes_of(2))
            + total(fs, bytes_of(3)) + total(fs, bytes_of(4)) + total(fs, bytes_of(5)),
    decreases fs.len(),
{
    if fs.len() > 0 {
        lemma_kinds_make_up(fs.drop_last());
    }
}

proof fn lemma_files_make_up(t: Tree, path: Seq<char>)
    requires
        adds_up(t),
    ensures
        total(files_of(t, path), found_bytes()) == t.logical_size,
    decreases t, 1nat,
{
    if t.kind == NodeKind::Folder {
        lemma_files_among_make_up(t.children, path);
    } else {
        let fs = files_of(t, path);
        reveal_with_fuel(total, 2);
        assert(fs.drop_last() =~= Seq::empty());
        assert(total(fs, found_bytes()) == t.logical_size);
    }
}

proof fn lemma_files_among_make_up(ch: Seq<Tree>, path: Seq<char>)
    requires
        forall|i: int| 0 <= i < ch.len() ==> adds_up(#[trigger] ch[i]),
    ensures
        total(files_among(ch, path), found_bytes()) == logical_total(ch),
    decreases ch, 0nat,
{
    if ch.len() > 0 {
        let last = ch.last();
        assert(adds_up(ch[ch.len() - 1]));
        assert forall|i: int| 0 <= i < ch.drop_last().len() implies adds_up(#[trigger] ch.drop_last()[i]) by {
            assert(adds_up(ch[i]));
        }
        lemma_files_make_up(last, below(path, last.name));
        lemma_files_among_make_up(ch.drop_last(), path);
        lemma_total_concat(
            files_of(last, below(path, last.name)),
            files_among(ch.drop_last(), path),
            found_bytes(),
        );
    }
}

/// Where the sizes of a tree add up, the kinds of files make up its size: every file is of one
/// kind, and none is left out.
pub proof fn law_categories_make_up_the_whole(t: Tree)
    requires
        adds_up(t),
    ensures
        category_total(t, 0) + category_total(t, 1) + category_total(t, 2) + category_total(t, 3)
            + category_total(t, 4) + category_total(t, 5) == t.logical_size,
        categories_fit(t),
{
    lemma_kinds_make_up(files_of(t, Seq::empty()));
    lemma_files_make_up(t, Seq::empty());
}

// ---------------------------------------------------------------------------------------------
// By extension
// ---------------------------------------------------------------------------------------------

/// The color of groups.
pub open spec fn group_color() -> Color {
    Color { r: 0xF5, g: 0xA6, b: 0x23 }
}

/// What the files are grouped by: the extension, where there is a name before it and it is not
/// empty.
pub open spec fn ext_key(name: Seq<char>) -> Seq<char> {
    let i = last_dot(name);
    if i > 0 && i + 1 < name.len() {
        extension(name)->0
    } else {
        "（无扩展名）"@
    }
}

/// The name of the group of `n` files with the given key.
pub open spec fn ext_group_name(key: Seq<char>, n: nat) -> Seq<char> {
    (if key.len() > 0 && key[0] == '（' {
        key
    } else {
        "."@ + key
    }) + "（"@ + decimal(n) + " 个文件）"@
}

/// A file as it stands in a group: it notes where it truly is.
pub open spec fn leaf(f: Found) -> Tree {
    Tree { full_path: Some(f.path), ..f.file }
}

/// The files at some places, as they stand in a group.
pub open spec fn leaves_at(fs: Seq<Found>, at: Seq<usize>) -> Seq<Tree> {
    Seq::new(at.len(), |k: int| leaf(fs[at[k] as int]))
}

/// The keys of all files.
pub open spec fn ext_keys(fs: Seq<Found>) -> Seq<Option<(u64, Seq<char>)>> {
    Seq::new(fs.len(), |i: int| Some((0u64, ext_key(fs[i].file.name))))
}

/// The group of the files with the given key.
pub open spec fn ext_group(fs: Seq<Found>, key: (u64, Seq<char>)) -> Seq<Tree> {
    leaves_at(fs, places(ext_keys(fs), key))
}

/// A folder that stands for a group.
pub open spec fn group_folder(name: Seq<char>, ch: Seq<Tree>) -> Tree {
    folder_of(name, group_color(), ch, 0, 0, 0, 0x10, 0, false, Seq::empty())
}

/// The folders of the first `n` groups.
pub open spec fn ext_folders(fs: Seq<Found>, n: int) -> Seq<Tree>
    decreases n,
{
    if n <= 0 {
        Seq::empty()
    } else {
        let key = distinct(ext_keys(fs))[n - 1];
        let ch = ext_group(fs, key);
        ext_folders(fs, n - 1).push(group_folder(ext_group_name(key.1, ch.len()), ch))
    }
}

/// Whether the sizes of all groups, and of the groups together, can be counted in 64 bits.
pub open spec fn ext_groups_fit(fs: Seq<Found>) -> bool {
    let keys = distinct(ext_keys(fs));
    &&& forall|g: int| 0 <= g < keys.len() ==> sums_fit(ext_group(fs, #[trigger] keys[g]))
    &&& sums_fit(ext_folders(fs, keys.len() as int))
}

/// The tree with one folder for each extension, and the files with that extension in it.
pub open spec fn extension_tree(fs: Seq<Found>) -> Tree {
    group_folder("按扩展名分类"@, ext_folders(fs, distinct(ext_keys(fs)).len() as int))
}

fn key_of(name: &str) -> (r: String)
    ensures
        r@ == ext_key(name@),
{
    match split_extension(name) {
        Some((i, e)) => if i > 0 && !e.as_str().is_empty() {
            e
        } else {
            owned("（无扩展名）")
        },
        None => owned("（无扩展名）"),
    }
}

fn name_of_group(key: &str, n: usize) -> (r: String)
    ensures
        r@ == ext_group_name(key@, n as nat),
{
    let v = chars_of(key);
    let mut out = String::new();
    if !(v.len() > 0 && v[0] == '（') {
        out.append(".");
    }
    out.append(key);
    out.append("（");
    push_decimal(&mut out, n as u64);
    out.append(" 个文件）");
    assert(out@ =~= ext_group_name(key@, n as nat));
    out
}

fn make_group(name: String, children: Vec<Node>) -> (r: Node)
    requires
        sums_fit(trees(children@)),
    ensures
        r@ == group_folder(name@, trees(children@)),
{
    Node::new_folder_with_meta(
        name,
        Color { r: 0xF5, g: 0xA6, b: 0x23 },
        children,
        0,
        0,
        0,
        0x10,
        0,
        false,
        String::new(),
    )
}

/// One more file: the places in the group of its key grow by one, those of other keys do not.
proof fn lemma_one_more_file(fs: Seq<Found>, n: int, key: (u64, Seq<char>))
    requires
        0 <= n < fs.len(),
        n < usize::MAX,
    ensures
        ext_group(fs.take(n + 1), key) == if ext_keys(fs)[n] == Some(key) {
            ext_group(fs.take(n), key).push(leaf(fs[n]))
        } else {
            ext_group(fs.take(n), key)
        },
{
    let a = ext_keys(fs.take(n));
    let b = ext_keys(fs.take(n + 1));
    assert(b.drop_last() =~= a);
    assert(b.last() == ext_keys(fs)[n]);
    lemma_places(a, key);
    assert(ext_group(fs.take(n + 1), key) =~= if ext_keys(fs)[n] == Some(key) {
        ext_group(fs.take(n), key).push(leaf(fs[n]))
    } else {
        ext_group(fs.take(n), key)
    });
}

/// The files of a tree by their extensions, as a tree that can be shown. There is none exactly if
/// the sizes cannot be counted.
pub fn build_extension_tree(root: &Node, root_path: &str) -> (r: Result<Node, SizesTooLarge>)
    ensures
        match r {
            Ok(n) => ext_groups_fit(files_of(root@, trimmed(root_path@))) && n@ == extension_tree(
                files_of(root@, trimmed(root_path@)),
            ),
            Err(_) => !ext_groups_fit(files_of(root@, trimmed(root_path@))),
        },
{
    let ghost fs = files_of(root@, trimmed(root_path@));
    let mut table = TextTable::new();
    let mut groups: Vec<Vec<Node>> = Vec::new();
    let mut walker = FileWalker::new(root, root_path);
    let ghost mut done: int = 0;
    // Which group each file is in.
    let mut ids: Vec<Option<usize>> = Vec::new();
    proof {
        assert(fs.skip(0) =~= fs);
        assert(ext_keys(fs.take(0)) =~= Seq::empty());
    }
    loop
        invariant
            fs == files_of(root@, trimmed(root_path@)),
            0 <= done <= fs.len(),
            walker.left() == fs.skip(done),
            table.well_formed(),
            numbered(ext_keys(fs.take(done)), ids@, table.listed()),
            done == ids@.len(),
            groups@.len() == table.listed().len(),
            forall|g: int|
                0 <= g < groups@.len() ==> trees((#[trigger] groups@[g])@) == ext_group(
                    fs.take(done),
                    table.listed()[g],
                ),
        ensures
            done == fs.len(),
        decreases walker.left().len(),
    {
        match walker.next() {
            Some((file, path)) => {
                let key = key_of(file.name.as_str());
                let ghost list = table.listed();
                let ghost before = groups@;
                let ghost k = (0u64, key@);
                let id: usize = table.id_of(0, key.as_str());
                proof {
                    assert(fs[done].file == file@ && fs[done].path == path@);
                    assert(ext_keys(fs)[done] == Some(k));
                    lemma_numbered_more(ext_keys(fs.take(done)), ids@, list, k, id);
                    assert(ext_keys(fs.take(done)).push(Some(k)) =~= ext_keys(fs.take(done + 1)));
                }
                ids.push(Some(id));
                let count: usize = ids.len();
                assert(count == done + 1);
                if id == groups.len() {
                    groups.push(Vec::new());
                    proof {
                        lemma_absent(ext_keys(fs.take(done)), k);
                        assert(ext_group(fs.take(done), k) =~= Seq::empty());
                        assert(trees(groups@[id as int]@) =~= Seq::empty());
                    }
                }
                let ghost mid = groups@;
                assert(trees(mid[id as int]@) == ext_group(fs.take(done), k));
                groups[id].push(file.clone().with_full_path(path));
                proof {
                    assert(groups@ =~= mid.update(id as int, groups@[id as int]));
                    assert(trees(groups@[id as int]@) =~= trees(mid[id as int]@).push(leaf(fs[done])));
                    assert forall|g: int| 0 <= g < groups@.len() implies trees((#[trigger] groups@[g])@) == ext_group(
                        fs.take(done + 1),
                        table.listed()[g],
                    ) by {
                        lemma_one_more_file(fs, done, table.listed()[g]);
                        if g != id {
                            assert(groups@[g] == before[g]);
                            assert(list[g] == table.listed()[g]);
                            assert(list[g] != k);
                        }
                    }
                    done = done + 1;
                    assert(walker.left() =~= fs.skip(done));
                }
            },
            None => {
                break;
            },
        }
    }
    assert(fs.take(done) =~= fs);
    let ghost keys = distinct(ext_keys(fs));
    let ghost all = groups@;
    let mut folders: Vec<Node> = Vec::new();
    assert(trees(folders@) =~= ext_folders(fs, 0));
    for files in it: groups
        invariant
            it.seq() == all,
            keys == distinct(ext_keys(fs)),
            keys == table.listed(),
            all.len() == keys.len(),
            forall|g: int| 0 <= g < all.len() ==> trees((#[trigger] all[g])@) == ext_group(fs, keys[g]),
            folders@.len() == it.index(),
            trees(folders@) == ext_folders(fs, it.index() as int),
            forall|g: int| 0 <= g < it.index() ==> sums_fit(ext_group(fs, #[trigger] keys[g])),
            fs == files_of(root@, trimmed(root_path@)),
    {
        let g: usize = folders.len();
        assert(files == all[g as int]);
        if !totals_fit(&files) {
            assert(!sums_fit(ext_group(fs, keys[g as int])));
            return Err(SizesTooLarge);
        }
        let (_, key) = table.entry(g);
        let name = name_of_group(key.as_str(), files.len());
        let ghost before = folders@;
        let folder = make_group(name, files);
        folders.push(folder);
        assert(trees(folders@) =~= trees(before).push(folder@));
    }
    if !totals_fit(&folders) {
        return Err(SizesTooLarge);
    }
    Ok(make_group(owned("按扩展名分类"), folders))
}

/// What does not occur stands nowhere.
proof fn lemma_absent<K>(keys: Seq<Option<K>>, k: K)
    requires
        !distinct(keys).contains(k),
    ensures
        places(keys, k).len() == 0,
    decreases keys.len(),
{
    if keys.len() > 0 {
        let prev = keys.drop_last();
        lemma_distinct(keys);
        if distinct(prev).contains(k) {
            let g = choose|g: int| 0 <= g < distinct(prev).len() && distinct(prev)[g] == k;
            assert(distinct(keys)[g] == k);
        }
        lemma_absent(prev, k);
        assert(keys[keys.len() - 1] != Some(k));
    }
}

// ---------------------------------------------------------------------------------------------
// Grouping loses no file
// ---------------------------------------------------------------------------------------------

/// What `f` says of a file, in its group.
spec fn of_leaf(f: spec_fn(Tree) -> nat) -> spec_fn(Found) -> nat {
    |x: Found| f(leaf(x))
}

/// The sum of `h` over the first `n` numbers.
spec fn sum_to(n: int, h: spec_fn(int) -> nat) -> nat
    decreases n,
{
    if n <= 0 {
        0
    } else {
        sum_to(n - 1, h) + h(n - 1)
    }
}

/// What `f` says of the groups of the first `n` files, group by group.
spec fn of_groups(fs: Seq<Found>, n: int, list: Seq<(u64, Seq<char>)>, f: spec_fn(Tree) -> nat) -> spec_fn(int) -> nat {
    |g: int| total(ext_group(fs.take(n), list[g]), f)
}

proof fn lemma_sum_changed(n: int, h: spec_fn(int) -> nat, h2: spec_fn(int) -> nat, x: int, by: nat)
    requires
        0 <= x,
        forall|g: int| 0 <= g < n && g != x ==> #[trigger] h2(g) == h(g),
        x < n ==> h2(x) == h(x) + by,
    ensures
        sum_to(n, h2) == sum_to(n, h) + if x < n {
            by
        } else {
            0
        },
    decreases n,
{
    if n > 0 {
        lemma_sum_changed(n - 1, h, h2, x, by);
        assert(n - 1 != x ==> h2(n - 1) == h(n - 1));
    }
}

proof fn lemma_sum_zero(n: int, h: spec_fn(int) -> nat)
    requires
        forall|g: int| 0 <= g < n ==> #[trigger] h(g) == 0,
    ensures
        sum_to(n, h) == 0,
    decreases n,
{
    if n > 0 {
        lemma_sum_zero(n - 1, h);
        assert(h(n - 1) == 0);
    }
}

proof fn lemma_part_of_sum(n: int, h: spec_fn(int) -> nat, g: int)
    requires
        0 <= g < n,
    ensures
        h(g) <= sum_to(n, h),
    decreases n,
{
    if g < n - 1 {
        lemma_part_of_sum(n - 1, h, g);
    }
}

/// The groups hold every file once: whatever is summed up over them comes to the sum over all
/// files.
proof fn lemma_groups_hold_all(fs: Seq<Found>, n: int, f: spec_fn(Tree) -> nat)
    requires
        0 <= n <= fs.len(),
        fs.len() <= usize::MAX,
    ensures
        ({
            let list = distinct(ext_keys(fs));
            sum_to(list.len() as int, of_groups(fs, n, list, f)) == total(fs.take(n), of_leaf(f))
        }),
    decreases n,
{
    let keys = ext_keys(fs);
    let list = distinct(keys);
    lemma_distinct(keys);
    let h = of_groups(fs, n, list, f);
    if n == 0 {
        assert(fs.take(0) =~= Seq::empty());
        assert(ext_keys(fs.take(0)) =~= Seq::empty());
        assert forall|g: int| 0 <= g < list.len() implies #[trigger] h(g) == 0 by {
            assert(ext_group(fs.take(0), list[g]) =~= Seq::empty());
        }
        lemma_sum_zero(list.len() as int, h);
    } else {
        lemma_groups_hold_all(fs, n - 1, f);
        let h0 = of_groups(fs, n - 1, list, f);
        let key = keys[n - 1]->0;
        assert(list.contains(key));
        let x = choose|x: int| 0 <= x < list.len() && list[x] == key;
        let new = leaf(fs[n - 1]);
        assert forall|g: int| 0 <= g < list.len() && g != x implies #[trigger] h(g) == h0(g) by {
            lemma_one_more_file(fs, n - 1, list[g]);
        }
        lemma_one_more_file(fs, n - 1, key);
        assert(ext_group(fs.take(n), key) == ext_group(fs.take(n - 1), key).push(new));
        assert(ext_group(fs.take(n), key).drop_last() =~= ext_group(fs.take(n - 1), key));
        assert(h(x) == h0(x) + f(new));
        lemma_sum_changed(list.len() as int, h0, h, x, f(new));
        assert(fs.take(n).drop_last() =~= fs.take(n - 1));
        assert(fs.take(n).last() == fs[n - 1]);
    }
}

/// The sum over the group folders is the sum over the groups, where `of` says of a folder what `f`
/// sums up over its children.
proof fn lemma_folders_sum(fs: Seq<Found>, n: int, f: spec_fn(Tree) -> nat, of: spec_fn(Tree) -> nat)
    requires
        0 <= n <= distinct(ext_keys(fs)).len(),
        forall|g: int|
            0 <= g < n ==> of(ext_folders(fs, g + 1).last()) == total(
                ext_group(fs, #[trigger] distinct(ext_keys(fs))[g]),
                f,
            ),
    ensures
        total(ext_folders(fs, n), of) == sum_to(
            n,
            of_groups(fs, fs.len() as int, distinct(ext_keys(fs)), f),
        ),
    decreases n,
{
    assert(fs.take(fs.len() as int) =~= fs);
    if n > 0 {
        lemma_folders_sum(fs, n - 1, f, of);
        let list = distinct(ext_keys(fs));
        let now = ext_folders(fs, n);
        assert(now.drop_last() =~= ext_folders(fs, n - 1));
        assert(of(now.last()) == total(ext_group(fs, list[n - 1]), f));
    }
}

/// What `f` says of a file.
spec fn on_files(f: spec_fn(Tree) -> nat) -> spec_fn(Found) -> nat {
    |x: Found| f(x.file)
}

proof fn lemma_files_sum(t: Tree, path: Seq<char>, f: spec_fn(Tree) -> nat)
    requires
        adds_up(t),
        forall|x: Tree| x.kind == NodeKind::Folder ==> #[trigger] f(x) == 0,
    ensures
        total(files_of(t, path), on_files(f)) == sum_over(t, f),
    decreases t, 1nat,
{
    if t.kind == NodeKind::Folder {
        lemma_files_sum_among(t.children, path, f);
    } else {
        let fs = files_of(t, path);
        reveal_with_fuel(total, 2);
        reveal_with_fuel(sum_over_all, 2);
        assert(fs.drop_last() =~= Seq::empty());
    }
}

proof fn lemma_files_sum_among(ch: Seq<Tree>, path: Seq<char>, f: spec_fn(Tree) -> nat)
    requires
        forall|i: int| 0 <= i < ch.len() ==> adds_up(#[trigger] ch[i]),
        forall|x: Tree| x.kind == NodeKind::Folder ==> #[trigger] f(x) == 0,
    ensures
        total(files_among(ch, path), on_files(f)) == sum_over_all(ch, f),
    decreases ch, 0nat,
{
    if ch.len() > 0 {
        let last = ch.last();
        assert(adds_up(ch[ch.len() - 1]));
        assert forall|i: int| 0 <= i < ch.drop_last().len() implies adds_up(#[trigger] ch.drop_last()[i]) by {
            assert(adds_up(ch[i]));
        }
        lemma_files_sum(last, below(path, last.name), f);
        lemma_files_sum_among(ch.drop_last(), path, f);
        lemma_total_concat(
            files_of(last, below(path, last.name)),
            files_among(ch.drop_last(), path),
            on_files(f),
        );
    }
}

/// What a walk to the files comes by are files with nothing in them.
proof fn lemma_found_files(t: Tree, path: Seq<char>)
    requires
        adds_up(t),
    ensures
        forall|i: int|
            0 <= i < files_of(t, path).len() ==> is_plain_file((#[trigger] files_of(t, path)[i]).file),
    decreases t, 1nat,
{
    if t.kind == NodeKind::Folder {
        lemma_found_files_among(t.children, path);
    }
}

spec fn is_plain_file(t: Tree) -> bool {
    t.kind == NodeKind::File && t.file_count == 0 && t.folder_count == 0
}

proof fn lemma_found_files_among(ch: Seq<Tree>, path: Seq<char>)
    requires
        forall|i: int| 0 <= i < ch.len() ==> adds_up(#[trigger] ch[i]),
    ensures
        forall|i: int|
            0 <= i < files_among(ch, path).len() ==> is_plain_file((#[trigger] files_among(ch, path)[i]).file),
    decreases ch, 0nat,
{
    if ch.len() > 0 {
        let last = ch.last();
        assert(adds_up(ch[ch.len() - 1]));
        assert forall|i: int| 0 <= i < ch.drop_last().len() implies adds_up(#[trigger] ch.drop_last()[i]) by {
            assert(adds_up(ch[i]));
        }
        lemma_found_files(last, below(path, last.name));
        lemma_found_files_among(ch.drop_last(), path);
        let a = files_of(last, below(path, last.name));
        let b = files_among(ch.drop_last(), path);
        assert forall|i: int| 0 <= i < (a + b).len() implies is_plain_file((#[trigger] (a + b)[i]).file) by {
            if i < a.len() {
                assert((a + b)[i] == a[i]);
            } else {
                assert((a + b)[i] == b[i - a.len()]);
            }
        }
    }
}

/// Sums that agree item by item are the same.
proof fn lemma_total_same<T>(s: Seq<T>, f: spec_fn(T) -> nat, g: spec_fn(T) -> nat)
    requires
        forall|i: int| 0 <= i < s.len() ==> f(#[trigger] s[i]) == g(s[i]),
    ensures
        total(s, f) == total(s, g),
    decreases s.len(),
{
    if s.len() > 0 {
        assert forall|i: int| 0 <= i < s.drop_last().len() implies f(#[trigger] s.drop_last()[i]) == g(
            s.drop_last()[i],
        ) by {
            assert(f(s[i]) == g(s[i]));
        }
        lemma_total_same(s.drop_last(), f, g);
        assert(f(s[s.len() - 1]) == g(s[s.len() - 1]));
    }
}

/// The sum of ones is how many there are.
proof fn lemma_total_ones<T>(s: Seq<T>, f: spec_fn(T) -> nat)
    requires
        forall|i: int| 0 <= i < s.len() ==> f(#[trigger] s[i]) == 1,
    ensures
        total(s, f) == s.len(),
    decreases s.len(),
{
    if s.len() > 0 {
        assert forall|i: int| 0 <= i < s.drop_last().len() implies f(#[trigger] s.drop_last()[i]) == 1 by {
            assert(f(s[i]) == 1);
        }
        lemma_total_ones(s.drop_last(), f);
        assert(f(s[s.len() - 1]) == 1);
    }
}

proof fn lemma_distinct_is_short<K>(keys: Seq<Option<K>>)
    ensures
        distinct(keys).len() <= keys.len(),
    decreases keys.len(),
{
    if keys.len() > 0 {
        lemma_distinct_is_short(keys.drop_last());
    }
}

spec fn logical() -> spec_fn(Tree) -> nat {
    |c: Tree| c.logical_size as nat
}

spec fn physical() -> spec_fn(Tree) -> nat {
    |c: Tree| c.physical_size as nat
}

spec fn files() -> spec_fn(Tree) -> nat {
    |c: Tree| c.file_count as nat + if c.kind == NodeKind::File { 1nat } else { 0nat }
}

spec fn folders() -> spec_fn(Tree) -> nat {
    |c: Tree| c.folder_count as nat + if c.kind == NodeKind::Folder { 1nat } else { 0nat }
}

/// Where the numbers of a tree add up, its files can always be grouped by extension, and the groups
/// together have the size, the room and the number of files that the tree has.
pub proof fn law_grouping_keeps_every_file(root: Tree, path: Seq<char>)
    requires
        adds_up(root),
        files_of(root, path).len() <= usize::MAX,
    ensures
        ext_groups_fit(files_of(root, path)),
        extension_tree(files_of(root, path)).logical_size == root.logical_size,
        extension_tree(files_of(root, path)).physical_size == root.physical_size,
        extension_tree(files_of(root, path)).file_count == files_of(root, path).len(),
        root.kind == NodeKind::Folder ==> files_of(root, path).len() == root.file_count,
{
    let fs = files_of(root, path);
    let n = fs.len() as int;
    let list = distinct(ext_keys(fs));
    let m = list.len() as int;
    assert(fs.take(n) =~= fs);
    lemma_found_files(root, path);
    law_numbers_speak_of_everything_below(root);
    // The sums over all files.
    lemma_files_sum(root, path, file_bytes());
    lemma_files_sum(root, path, file_room());
    lemma_files_sum(root, path, one_per_file());
    lemma_total_same(fs, on_files(file_bytes()), of_leaf(logical()));
    lemma_total_same(fs, on_files(file_room()), of_leaf(physical()));
    lemma_total_same(fs, on_files(one_per_file()), of_leaf(files()));
    lemma_total_ones(fs, of_leaf(files()));
    lemma_total_zero(fs, of_leaf(folders()));
    assert(sum_over(root, one_per_file()) == (one_per_file())(root) + sum_over_all(
        root.children,
        one_per_file(),
    ));
    // The same sums, group by group.
    lemma_groups_hold_all(fs, n, logical());
    lemma_groups_hold_all(fs, n, physical());
    lemma_groups_hold_all(fs, n, files());
    lemma_groups_hold_all(fs, n, folders());
    lemma_distinct_is_short(ext_keys(fs));
    assert(n <= u64::MAX);
    assert forall|g: int| 0 <= g < m implies sums_fit(ext_group(fs, #[trigger] list[g])) && folders_total(
        ext_group(fs, list[g]),
    ) == 0 by {
        lemma_part_of_sum(m, of_groups(fs, n, list, logical()), g);
        lemma_part_of_sum(m, of_groups(fs, n, list, physical()), g);
        lemma_part_of_sum(m, of_groups(fs, n, list, files()), g);
        lemma_part_of_sum(m, of_groups(fs, n, list, folders()), g);
    }
    assert forall|g: int| 0 <= g < m implies ext_folders(fs, g + 1).last() == group_folder(
        ext_group_name(list[g].1, ext_group(fs, list[g]).len()),
        ext_group(fs, #[trigger] list[g]),
    ) by {}
    lemma_folders_sum(fs, m, logical(), logical());
    lemma_folders_sum(fs, m, physical(), physical());
    lemma_folders_sum(fs, m, files(), files());
    let all = ext_folders(fs, m);
    lemma_folder_count(fs, m);
    lemma_total_ones(all, folders());
}

proof fn lemma_folder_count(fs: Seq<Found>, n: int)
    requires
        0 <= n <= distinct(ext_keys(fs)).len(),
        forall|g: int|
            0 <= g < distinct(ext_keys(fs)).len() ==> folders_total(
                ext_group(fs, #[trigger] distinct(ext_keys(fs))[g]),
            ) == 0,
    ensures
        ext_folders(fs, n).len() == n,
        forall|i: int| 0 <= i < n ==> (folders())(#[trigger] ext_folders(fs, n)[i]) == 1,
    decreases n,
{
    if n > 0 {
        lemma_folder_count(fs, n - 1);
        let list = distinct(ext_keys(fs));
        assert(folders_total(ext_group(fs, list[n - 1])) == 0);
        assert forall|i: int| 0 <= i < n implies (folders())(#[trigger] ext_folders(fs, n)[i]) == 1 by {
            if i < n - 1 {
                assert(ext_folders(fs, n)[i] == ext_folders(fs, n - 1)[i]);
            }
        }
    }
}

// ---------------------------------------------------------------------------------------------
// Which group a file is in
// ---------------------------------------------------------------------------------------------

/// Files are grouped by what stands behind the last dot, in lower case, where something stands on both
/// sides of that dot; all others go without an extension.
pub proof fn law_files_are_grouped_by_what_is_behind_the_dot(s: Seq<char>, e: Seq<char>)
    requires
        forall|i: int| 0 <= i < e.len() ==> #[trigger] e[i] != '.',
    ensures
        s.len() > 0 && e.len() > 0 ==> ext_key(s + seq!['.'] + e).len() == e.len() && same_letters(
            ext_key(s + seq!['.'] + e),
            e,
        ) && forall|i: int| 0 <= i < e.len() ==> !('A' <= #[trigger] ext_key(s + seq!['.'] + e)[i] <= 'Z'),
        s.len() == 0 || e.len() == 0 ==> ext_key(s + seq!['.'] + e) == "（无扩展名）"@,
        ext_key(e) == "（无扩展名）"@,
{
    let name = s + seq!['.'] + e;
    lemma_extension_behind_dot(s, e);
    lemma_last_dot_bounds(e);
    let k = ext_key(name);
    if s.len() > 0 && e.len() > 0 {
        assert forall|i: int| 0 <= i < k.len() implies same_letter(#[trigger] k[i], e[i]) by {
            assert(k[i] == lower(e[i]));
        }
        assert forall|i: int| 0 <= i < e.len() implies !('A' <= #[trigger] k[i] <= 'Z') by {
            assert(k[i] == lower(e[i]));
        }
    }
}

/// A folder for a group holds all files of the group.
proof fn lemma_group_holds(name: Seq<char>, ch: Seq<Tree>, k: int) -> (j: int)
    requires
        ch.len() <= usize::MAX,
        0 <= k < ch.len(),
    ensures
        0 <= j < group_folder(name, ch).children.len(),
        group_folder(name, ch).children[j] == ch[k],
{
    let o = law_new_folder_puts_larger_children_first(
        name,
        group_color(),
        ch,
        0,
        0,
        0,
        0x10,
        0,
        false,
        Seq::empty(),
    );
    lemma_full_range(o, 0, ch.len() as int);
    assert(o.contains(k as usize));
    let j = choose|j: int| 0 <= j < o.len() && o[j] == k as usize;
    let t = group_folder(name, ch);
    assert(t.children[j] == ch[o[j] as int]);
    j
}

/// Whether a folder stands for the files with the given extension: it bears its name, and says how
/// many there are.
pub open spec fn is_group_folder(g: Tree, key: Seq<char>, n: nat) -> bool {
    &&& g.kind == NodeKind::Folder
    &&& g.name == ext_group_name(key, n)
    &&& g.children.len() == n
}

proof fn lemma_ext_folder(fs: Seq<Found>, n: int, k: int)
    requires
        0 <= k < n <= distinct(ext_keys(fs)).len(),
    ensures
        ext_folders(fs, n).len() == n,
        ({
            let key = distinct(ext_keys(fs))[k];
            let ch = ext_group(fs, key);
            ext_folders(fs, n)[k] == group_folder(ext_group_name(key.1, ch.len()), ch)
        }),
    decreases n,
{
    if k < n - 1 {
        lemma_ext_folder(fs, n - 1, k);
    } else {
        lemma_ext_folders_len(fs, n - 1);
    }
}

proof fn lemma_ext_folders_len(fs: Seq<Found>, n: int)
    requires
        0 <= n,
    ensures
        ext_folders(fs, n).len() == n,
    decreases n,
{
    if n > 0 {
        lemma_ext_folders_len(fs, n - 1);
    }
}

/// Any two files with the same extension stand in one folder, which stands for that extension; each
/// notes there where it truly is. A file that has no other of its extension has a folder too.
pub proof fn law_files_stand_with_their_extension(fs: Seq<Found>, i: int, j: int) -> (r: (int, int, int))
    requires
        fs.len() <= usize::MAX,
        0 <= i < fs.len(),
        0 <= j < fs.len(),
        ext_key(fs[i].file.name) == ext_key(fs[j].file.name),
    ensures
        ({
            let (g, a, b) = r;
            let groups = extension_tree(fs).children;
            &&& 0 <= g < groups.len()
            &&& is_group_folder(groups[g], ext_key(fs[i].file.name), groups[g].children.len())
            &&& 0 <= a < groups[g].children.len() && groups[g].children[a] == (Tree {
                full_path: Some(fs[i].path),
                ..fs[i].file
            })
            &&& 0 <= b < groups[g].children.len() && groups[g].children[b] == (Tree {
                full_path: Some(fs[j].path),
                ..fs[j].file
            })
        }),
{
    let keys = ext_keys(fs);
    let key = (0u64, ext_key(fs[i].file.name));
    lemma_distinct(keys);
    assert(keys[i] == Some(key) && keys[j] == Some(key));
    let list = distinct(keys);
    let n = list.len() as int;
    assert(list.contains(key));
    let k = choose|k: int| 0 <= k < list.len() && list[k] == key;
    lemma_places(keys, key);
    let at = places(keys, key);
    assert(at.contains(i as usize) && at.contains(j as usize));
    let x = choose|x: int| 0 <= x < at.len() && at[x] == i as usize;
    let y = choose|y: int| 0 <= y < at.len() && at[y] == j as usize;
    let ch = ext_group(fs, key);
    assert(ch[x] == leaf(fs[i]) && ch[y] == leaf(fs[j]));
    lemma_distinct_is_short(keys);
    assert(ch.len() <= usize::MAX) by {
        lemma_places_len(keys, key);
    }
    lemma_ext_folder(fs, n, k);
    let folders = ext_folders(fs, n);
    let name = ext_group_name(key.1, ch.len());
    let g = lemma_group_holds("按扩展名分类"@, folders, k);
    let a = lemma_group_holds(name, ch, x);
    let b = lemma_group_holds(name, ch, y);
    lemma_by_size_is_preorder();
    lemma_sorted(ch, by_size());
    (g, a, b)
}

/// There are no more places than keys.
proof fn lemma_places_len<K>(keys: Seq<Option<K>>, k: K)
    ensures
        places(keys, k).len() <= keys.len(),
    decreases keys.len(),
{
    if keys.len() > 0 {
        lemma_places_len(keys.drop_last(), k);
    }
}

/// Whether a text starts with `start`, a bracket, the number `n` and a blank.
pub open spec fn is_group_name(s: Seq<char>, start: Seq<char>, n: nat) -> bool {
    exists|b: int|
        start.len() + 1 < b < s.len() && s.take(start.len() as int) == start && s[start.len() as int] == '（' && all_digits(
            s.subrange(start.len() as int + 1, b),
        ) && read_decimal(#[trigger] s.subrange(start.len() as int + 1, b)) == n && s[b] == ' '
}

/// The name of a group says which extension it is of, with a dot before it, and how many files it has;
/// the words for files without an extension stand as they are.
pub proof fn law_group_names_tell_extension_and_count(key: Seq<char>, n: nat)
    requires
        key.len() > 0,
    ensures
        key[0] == '（' ==> is_group_name(ext_group_name(key, n), key, n),
        key[0] != '（' ==> is_group_name(ext_group_name(key, n), seq!['.'] + key, n),
{
    reveal_strlit(".");
    reveal_strlit("（");
    reveal_strlit(" 个文件）");
    law_decimals_read_back(n);
    let s = ext_group_name(key, n);
    let start = if key[0] == '（' {
        key
    } else {
        seq!['.'] + key
    };
    assert(start =~= if key.len() > 0 && key[0] == '（' {
        key
    } else {
        "."@ + key
    });
    let d = decimal(n);
    assert(s =~= start + "（"@ + d + " 个文件）"@);
    assert(s.take(start.len() as int) =~= start);
    let b = start.len() + 1 + d.len() as int;
    assert(s.subrange(start.len() as int + 1, b) =~= d);
    assert(s[b] == ' ');
    assert(is_group_name(s, start, n));
}


/// A file counts with its size for the kind that it is of, and for no other. An empty folder counts for
/// none.
pub proof fn law_files_count_for_their_kind(t: Tree, c: int)
    ensures
        t.kind == NodeKind::File && category(t.name) == c ==> category_total(t, c) == t.logical_size,
        t.kind == NodeKind::File && category(t.name) != c ==> category_total(t, c) == 0,
        t.kind == NodeKind::Folder && t.children.len() == 0 ==> category_total(t, c) == 0,
{
    if t.kind == NodeKind::File {
        let fs = files_of(t, Seq::empty());
        assert(fs.drop_last() =~= Seq::empty());
        assert(fs.last().file == t);
        reveal_with_fuel(total, 2);
    }
}

} // verus!
