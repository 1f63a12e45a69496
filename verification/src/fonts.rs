//! Where to look for a font that has Chinese characters.
use vstd::prelude::*;

use crate::text::owned;

verus! {

use crate::disk_info::texts;

/// The fonts to look for in a directory of fonts, the best first.
pub open spec fn fonts_in(dir: Seq<char>) -> Seq<Seq<char>> {
    seq![
        dir + "\\msyh.ttc"@,
        dir + "\\msyhbd.ttc"@,
        dir + "\\simhei.ttf"@,
        dir + "\\simsun.ttc"@,
        dir + "\\Deng.ttf"@,
    ]
}

/// The fonts of other systems.
pub open spec fn other_fonts() -> Seq<Seq<char>> {
    seq![
        "/usr/share/fonts/truetype/noto/NotoSansCJK-Regular.ttc"@,
        "/usr/share/fonts/opentype/noto/NotoSansCJK-Regular.ttc"@,
        "/System/Library/Fonts/PingFang.ttc"@,
    ]
}

fn joined(dir: &str, file: &str) -> (r: String)
    ensures
        r@ == dir@ + file@,
{
    let mut s = owned(dir);
    s.append(file);
    s
}

/// The directory of fonts below the system's own directory.
pub fn fonts_dir(windows_dir: &str) -> (r: String)
    ensures
        r@ == windows_dir@ + "\\Fonts"@,
{
    joined(windows_dir, "\\Fonts")
}

/// The paths to try one after the other: those of the system's own fonts, where their directory is
/// known, and then those of other systems.
pub fn font_candidates(dir: Option<&str>) -> (r: Vec<String>)
    ensures
        texts(r@) == (match dir {
            Some(d) => fonts_in(d@),
            None => Seq::empty(),
        }) + other_fonts(),
{
    let mut out: Vec<String> = Vec::new();
    if let Some(d) = dir {
        out.push(joined(d, "\\msyh.ttc"));
        out.push(joined(d, "\\msyhbd.ttc"));
        out.push(joined(d, "\\simhei.ttf"));
        out.push(joined(d, "\\simsun.ttc"));
        out.push(joined(d, "\\Deng.ttf"));
    }
    out.push(owned("/usr/share/fonts/truetype/noto/NotoSansCJK-Regular.ttc"));
    out.push(owned("/usr/share/fonts/opentype/noto/NotoSansCJK-Regular.ttc"));
    out.push(owned("/System/Library/Fonts/PingFang.ttc"));
    assert(texts(out@) =~= (match dir {
        Some(d) => fonts_in(d@),
        None => Seq::empty(),
    }) + other_fonts());
    out
}

} // verus!
