//! Categorization strategies: by file type (extension table), by size bucket
//! and by age bucket. Every strategy is a pure function of the record it
//! sees, so one scan categorizes each record exactly once, and per-worker
//! copies behave identically.

use vstd::prelude::*;

verus! {

use vstd::string::StringExecFns;
use crate::types::{FileMetadata, FileMetadataView};
use crate::text::{dec_rep, u64_to_string};
use crate::config::{SpacemapConfig, CustomCategoryView, ExtensionRemapView};

/// What `str::to_lowercase` returns for a string with these characters; the
/// result depends on the characters alone.
pub uninterp spec fn lower_of(s: Seq<char>) -> Seq<char>;

/// Relies on `str::to_lowercase`: lowercases the string; the result is a
/// function of the characters alone, named `lower_of`.
#[verifier::external_body]
fn lowercase(s: &String) -> (r: String)
    ensures
        r@ == lower_of(s@),
{
    s.to_lowercase()
}

/// A categorization strategy: a pure map from a file record to a category
/// key, with a display label per key, duplicable per worker.
pub trait Categorizer: Sized {
    /// The strategy's internal well-formedness.
    spec fn inv(&self) -> bool;

    /// The category key of a record, as specifications see it.
    spec fn spec_categorize(&self, r: FileMetadataView) -> Seq<char>;

    /// The display label of a key, as specifications see it.
    spec fn spec_label(&self, key: Seq<char>) -> Seq<char>;

    /// The category key of a record.
    fn categorize(&self, r: &FileMetadata) -> (key: String)
        requires
            self.inv(),
        ensures
            key@ == self.spec_categorize(r@),
    ;

    /// The display label of a key.
    fn get_label(&self, key: &String) -> (label: String)
        requires
            self.inv(),
        ensures
            label@ == self.spec_label(key@),
    ;

    /// An independent copy with identical behaviour, for another worker.
    fn duplicate(&self) -> (c: Self)
        requires
            self.inv(),
        ensures
            c.inv(),
            forall|r: FileMetadataView| #[trigger] c.spec_categorize(r) == self.spec_categorize(
                r,
            ),
            forall|k: Seq<char>| #[trigger] c.spec_label(k) == self.spec_label(k),
    ;
}

/// Two strategies categorize and label identically.
pub open spec fn same_strategy<C: Categorizer>(a: C, b: C) -> bool {
    &&& forall|r: FileMetadataView| #[trigger] a.spec_categorize(r) == b.spec_categorize(r)
    &&& forall|k: Seq<char>| #[trigger] a.spec_label(k) == b.spec_label(k)
}

/// The views of an extension-to-category pair list.
pub open spec fn pairs_view(s: Seq<(String, String)>) -> Seq<(Seq<char>, Seq<char>)> {
    s.map_values(|p: (String, String)| (p.0@, p.1@))
}

/// The last pair with the given key wins, as in a map built by repeated
/// insertion.
pub open spec fn assoc_last(ps: Seq<(Seq<char>, Seq<char>)>, k: Seq<char>) -> Option<Seq<char>>
    decreases ps.len(),
{
    if ps.len() == 0 {
        Option::None
    } else if ps.last().0 == k {
        Option::Some(ps.last().1)
    } else {
        assoc_last(ps.drop_last(), k)
    }
}

/// Looks a key up in a pair list, as `assoc_last` states it.
#[verifier::loop_isolation(false)]
pub fn assoc_lookup(pairs: &Vec<(String, String)>, key: &String) -> (r: Option<String>)
    ensures
        r matches Option::Some(v) ==> assoc_last(pairs_view(pairs@), key@) == Option::Some(v@),
        r is None <==> assoc_last(pairs_view(pairs@), key@) is None,
{
    let n = pairs.len();
    let mut i: usize = n;
    proof {
        assert(pairs_view(pairs@).take(n as int) =~= pairs_view(pairs@));
    }
    while i > 0
        invariant
            0 <= i <= n,
            assoc_last(pairs_view(pairs@), key@) == assoc_last(
                pairs_view(pairs@).take(i as int),
                key@,
            ),
        decreases i,
    {
        proof {
            assert(pairs_view(pairs@).take(i as int).last() == pairs_view(pairs@)[i - 1]);
            assert(pairs_view(pairs@).take(i as int).drop_last() =~= pairs_view(
                pairs@,
            ).take(i as int - 1));
        }
        if pairs[i - 1].0 == *key {
            proof {
                assert(pairs_view(pairs@)[i - 1].0 == key@);
            }
            return Option::Some(pairs[i - 1].1.clone());
        }
        proof {
            assert(pairs_view(pairs@)[i - 1].0 != key@);
        }
        i = i - 1;
    }
    proof {
        assert(pairs_view(pairs@).take(0) =~= Seq::<(Seq<char>, Seq<char>)>::empty());
    }
    Option::None
}

/// Categorizes by a file's extension through a table of
/// extension-to-category pairs; unknown and missing extensions fall into
/// `Other`.
pub struct TypeCategorizer {
    map: Vec<(String, String)>,
}

impl TypeCategorizer {
    /// The table as specifications see it; later pairs override earlier
    /// ones.
    pub closed spec fn spec_map(&self) -> Seq<(Seq<char>, Seq<char>)> {
        pairs_view(self.map@)
    }

    /// Creates a categorizer with the built-in extension table.
    pub fn new() -> (r: Self)
        ensures
            r.inv(),
            r.spec_map() =~= default_pairs(),
    {
        Self::with_config(Option::None)
    }

    /// Creates a categorizer with the built-in table, then appends the
    /// configuration's custom categories and extension remaps, each
    /// extension lowercased; later entries override earlier ones.
    pub fn with_config(config: Option<&SpacemapConfig>) -> (r: Self)
        ensures
            r.inv(),
            match config {
                Option::Some(cfg) => r.spec_map() =~= default_pairs() + category_pairs(
                    cfg.categories@.map_values(|c: crate::config::CustomCategory| c@),
                ) + remap_pairs(
                    cfg.remaps@.map_values(|m: crate::config::ExtensionRemap| m@),
                ),
                Option::None => r.spec_map() =~= default_pairs(),
            },
    {
        let mut map: Vec<(String, String)> = Vec::new();
        build_default_table(&mut map);
        proof {
            assert(pairs_view(map@) =~= default_pairs());
        }
        match config {
            Option::Some(cfg) => {
                let ghost cats = cfg.categories@.map_values(
                    |c: crate::config::CustomCategory| c@,
                );
                let ghost base = pairs_view(map@);
                let mut ci: usize = 0;
                while ci < cfg.categories.len()
                    invariant
                        0 <= ci <= cfg.categories@.len(),
                        cats == cfg.categories@.map_values(
                            |c: crate::config::CustomCategory| c@,
                        ),
                        pairs_view(map@) =~= base + category_pairs(cats.take(ci as int)),
                    decreases cfg.categories@.len() - ci,
                {
                    let ghost done = pairs_view(map@);
                    let cat = &cfg.categories[ci];
                    let mut ei: usize = 0;
                    while ei < cat.extensions.len()
                        invariant
                            0 <= ei <= cat.extensions@.len(),
                            0 <= ci < cfg.categories@.len(),
                            cats == cfg.categories@.map_values(
                                |c: crate::config::CustomCategory| c@,
                            ),
                            *cat == cfg.categories@[ci as int],
                            pairs_view(map@) =~= done + pairs_of_category(
                                cats[ci as int],
                            ).take(ei as int),
                        decreases cat.extensions@.len() - ei,
                    {
                        let e = lowercase(&cat.extensions[ei]);
                        let c = cat.name.clone();
                        let ghost pre = pairs_view(map@);
                        map.push((e, c));
                        proof {
                            assert(pairs_view(map@) =~= pre.push(
                                (lower_of(cat.extensions@[ei as int]@), cat.name@),
                            ));
                            assert(pairs_of_category(cats[ci as int]).take(ei as int + 1)
                                =~= pairs_of_category(cats[ci as int]).take(ei as int).push(
                                pairs_of_category(cats[ci as int])[ei as int],
                            ));
                        }
                        ei = ei + 1;
                    }
                    proof {
                        assert(pairs_of_category(cats[ci as int]).take(
                            cat.extensions@.len() as int,
                        ) =~= pairs_of_category(cats[ci as int]));
                        assert(category_pairs(cats.take(ci as int + 1)) =~= category_pairs(
                            cats.take(ci as int),
                        ) + pairs_of_category(cats[ci as int])) by {
                            assert(cats.take(ci as int + 1).drop_last() =~= cats.take(
                                ci as int,
                            ));
                        }
                    }
                    ci = ci + 1;
                }
                proof {
                    assert(cats.take(cfg.categories@.len() as int) =~= cats);
                }
                let ghost rms = cfg.remaps@.map_values(|m: crate::config::ExtensionRemap| m@);
                let ghost base2 = pairs_view(map@);
                let mut ri: usize = 0;
                while ri < cfg.remaps.len()
                    invariant
                        0 <= ri <= cfg.remaps@.len(),
                        rms == cfg.remaps@.map_values(|m: crate::config::ExtensionRemap| m@),
                        pairs_view(map@) =~= base2 + remap_pairs(rms.take(ri as int)),
                    decreases cfg.remaps@.len() - ri,
                {
                    let ghost done = pairs_view(map@);
                    let rm = &cfg.remaps[ri];
                    let mut ei: usize = 0;
                    while ei < rm.extensions.len()
                        invariant
                            0 <= ei <= rm.extensions@.len(),
                            0 <= ri < cfg.remaps@.len(),
                            rms == cfg.remaps@.map_values(
                                |m: crate::config::ExtensionRemap| m@,
                            ),
                            *rm == cfg.remaps@[ri as int],
                            pairs_view(map@) =~= done + pairs_of_remap(rms[ri as int]).take(
                                ei as int,
                            ),
                        decreases rm.extensions@.len() - ei,
                    {
                        let e = lowercase(&rm.extensions[ei]);
                        let c = rm.category.clone();
                        let ghost pre = pairs_view(map@);
                        map.push((e, c));
                        proof {
                            assert(pairs_view(map@) =~= pre.push(
                                (lower_of(rm.extensions@[ei as int]@), rm.category@),
                            ));
                            assert(pairs_of_remap(rms[ri as int]).take(ei as int + 1)
                                =~= pairs_of_remap(rms[ri as int]).take(ei as int).push(
                                pairs_of_remap(rms[ri as int])[ei as int],
                            ));
                        }
                        ei = ei + 1;
                    }
                    proof {
                        assert(pairs_of_remap(rms[ri as int]).take(rm.extensions@.len() as int)
                            =~= pairs_of_remap(rms[ri as int]));
                        assert(remap_pairs(rms.take(ri as int + 1)) =~= remap_pairs(
                            rms.take(ri as int),
                        ) + pairs_of_remap(rms[ri as int])) by {
                            assert(rms.take(ri as int + 1).drop_last() =~= rms.take(ri as int));
                        }
                    }
                    ri = ri + 1;
                }
                proof {
                    assert(rms.take(cfg.remaps@.len() as int) =~= rms);
                }
                TypeCategorizer { map }
            },
            Option::None => TypeCategorizer { map },
        }
    }
}

/// Appends one extension-to-category pair.
fn put(map: &mut Vec<(String, String)>, e: &str, c: &str)
    ensures
        pairs_view(final(map)@) =~= pairs_view(old(map)@).push((e@, c@)),
{
    map.push((e.to_owned(), c.to_owned()));
    proof {
        assert(pairs_view(map@) =~= pairs_view(old(map)@).push((e@, c@)));
    }
}

/// The built-in image extensions.
pub open spec fn image_pairs() -> Seq<(Seq<char>, Seq<char>)> {
    seq![
        ("jpg"@, "Images"@),
        ("jpeg"@, "Images"@),
        ("png"@, "Images"@),
        ("gif"@, "Images"@),
        ("bmp"@, "Images"@),
        ("svg"@, "Images"@),
        ("webp"@, "Images"@),
        ("ico"@, "Images"@),
        ("heic"@, "Images"@),
        ("heif"@, "Images"@),
    ]
}

fn add_images(map: &mut Vec<(String, String)>)
    ensures
        pairs_view(final(map)@) =~= pairs_view(old(map)@) + image_pairs(),
{
    put(map, "jpg", "Images");
    put(map, "jpeg", "Images");
    put(map, "png", "Images");
    put(map, "gif", "Images");
    put(map, "bmp", "Images");
    put(map, "svg", "Images");
    put(map, "webp", "Images");
    put(map, "ico", "Images");
    put(map, "heic", "Images");
    put(map, "heif", "Images");
    proof {
        assert(pairs_view(map@) =~= pairs_view(old(map)@) + image_pairs());
    }
}

/// The built-in video extensions.
pub open spec fn video_pairs() -> Seq<(Seq<char>, Seq<char>)> {
    seq![
        ("mp4"@, "Videos"@),
        ("avi"@, "Videos"@),
        ("mkv"@, "Videos"@),
        ("mov"@, "Videos"@),
        ("wmv"@, "Videos"@),
        ("flv"@, "Videos"@),
        ("webm"@, "Videos"@),
        ("m4v"@, "Videos"@),
        ("mpg"@, "Videos"@),
        ("mpeg"@, "Videos"@),
    ]
}

fn add_videos(map: &mut Vec<(String, String)>)
    ensures
        pairs_view(final(map)@) =~= pairs_view(old(map)@) + video_pairs(),
{
    put(map, "mp4", "Videos");
    put(map, "avi", "Videos");
    put(map, "mkv", "Videos");
    put(map, "mov", "Videos");
    put(map, "wmv", "Videos");
    put(map, "flv", "Videos");
    put(map, "webm", "Videos");
    put(map, "m4v", "Videos");
    put(map, "mpg", "Videos");
    put(map, "mpeg", "Videos");
    proof {
        assert(pairs_view(map@) =~= pairs_view(old(map)@) + video_pairs());
    }
}

/// The built-in audio extensions.
pub open spec fn audio_pairs() -> Seq<(Seq<char>, Seq<char>)> {
    seq![
        ("mp3"@, "Audio"@),
        ("wav"@, "Audio"@),
        ("flac"@, "Audio"@),
        ("aac"@, "Audio"@),
        ("ogg"@, "Audio"@),
        ("m4a"@, "Audio"@),
        ("wma"@, "Audio"@),
        ("opus"@, "Audio"@),
    ]
}

fn add_audio(map: &mut Vec<(String, String)>)
    ensures
        pairs_view(final(map)@) =~= pairs_view(old(map)@) + audio_pairs(),
{
    put(map, "mp3", "Audio");
    put(map, "wav", "Audio");
    put(map, "flac", "Audio");
    put(map, "aac", "Audio");
    put(map, "ogg", "Audio");
    put(map, "m4a", "Audio");
    put(map, "wma", "Audio");
    put(map, "opus", "Audio");
    proof {
        assert(pairs_view(map@) =~= pairs_view(old(map)@) + audio_pairs());
    }
}

/// The built-in document, spreadsheet and presentation extensions.
pub open spec fn document_pairs() -> Seq<(Seq<char>, Seq<char>)> {
    seq![
        ("pdf"@, "Documents"@),
        ("doc"@, "Documents"@),
        ("docx"@, "Documents"@),
        ("txt"@, "Documents"@),
        ("odt"@, "Documents"@),
        ("rtf"@, "Documents"@),
        ("tex"@, "Documents"@),
        ("md"@, "Documents"@),
        ("xls"@, "Spreadsheets"@),
        ("xlsx"@, "Spreadsheets"@),
        ("csv"@, "Spreadsheets"@),
        ("ods"@, "Spreadsheets"@),
        ("ppt"@, "Presentations"@),
        ("pptx"@, "Presentations"@),
        ("odp"@, "Presentations"@),
    ]
}

fn add_documents(map: &mut Vec<(String, String)>)
    ensures
        pairs_view(final(map)@) =~= pairs_view(old(map)@) + document_pairs(),
{
    put(map, "pdf", "Documents");
    put(map, "doc", "Documents");
    put(map, "docx", "Documents");
    put(map, "txt", "Documents");
    put(map, "odt", "Documents");
    put(map, "rtf", "Documents");
    put(map, "tex", "Documents");
    put(map, "md", "Documents");
    put(map, "xls", "Spreadsheets");
    put(map, "xlsx", "Spreadsheets");
    put(map, "csv", "Spreadsheets");
    put(map, "ods", "Spreadsheets");
    put(map, "ppt", "Presentations");
    put(map, "pptx", "Presentations");
    put(map, "odp", "Presentations");
    proof {
        assert(pairs_view(map@) =~= pairs_view(old(map)@) + document_pairs());
    }
}

/// The built-in archive and code extensions.
pub open spec fn archive_code_pairs() -> Seq<(Seq<char>, Seq<char>)> {
    seq![
        ("zip"@, "Archives"@),
        ("tar"@, "Archives"@),
        ("gz"@, "Archives"@),
        ("bz2"@, "Archives"@),
        ("7z"@, "Archives"@),
        ("rar"@, "Archives"@),
        ("xz"@, "Archives"@),
        ("zst"@, "Archives"@),
        ("tgz"@, "Archives"@),
        ("rs"@, "Code"@),
        ("py"@, "Code"@),
        ("js"@, "Code"@),
        ("ts"@, "Code"@),
        ("java"@, "Code"@),
        ("c"@, "Code"@),
        ("cpp"@, "Code"@),
        ("h"@, "Code"@),
        ("hpp"@, "Code"@),
        ("go"@, "Code"@),
        ("rb"@, "Code"@),
        ("php"@, "Code"@),
        ("swift"@, "Code"@),
        ("kt"@, "Code"@),
    ]
}

fn add_archives_code(map: &mut Vec<(String, String)>)
    ensures
        pairs_view(final(map)@) =~= pairs_view(old(map)@) + archive_code_pairs(),
{
    put(map, "zip", "Archives");
    put(map, "tar", "Archives");
    put(map, "gz", "Archives");
    put(map, "bz2", "Archives");
    put(map, "7z", "Archives");
    put(map, "rar", "Archives");
    put(map, "xz", "Archives");
    put(map, "zst", "Archives");
    put(map, "tgz", "Archives");
    put(map, "rs", "Code");
    put(map, "py", "Code");
    put(map, "js", "Code");
    put(map, "ts", "Code");
    put(map, "java", "Code");
    put(map, "c", "Code");
    put(map, "cpp", "Code");
    put(map, "h", "Code");
    put(map, "hpp", "Code");
    put(map, "go", "Code");
    put(map, "rb", "Code");
    put(map, "php", "Code");
    put(map, "swift", "Code");
    put(map, "kt", "Code");
    proof {
        assert(pairs_view(map@) =~= pairs_view(old(map)@) + archive_code_pairs());
    }
}

/// The remaining built-in extensions: configuration, binaries, disk images,
/// databases, logs and fonts.
pub open spec fn misc_pairs() -> Seq<(Seq<char>, Seq<char>)> {
    seq![
        ("json"@, "Config"@),
        ("xml"@, "Config"@),
        ("yaml"@, "Config"@),
        ("yml"@, "Config"@),
        ("toml"@, "Config"@),
        ("ini"@, "Config"@),
        ("conf"@, "Config"@),
        ("cfg"@, "Config"@),
        ("exe"@, "Binaries"@),
        ("dll"@, "Binaries"@),
        ("so"@, "Binaries"@),
        ("dylib"@, "Binaries"@),
        ("bin"@, "Binaries"@),
        ("app"@, "Binaries"@),
        ("deb"@, "Binaries"@),
        ("rpm"@, "Binaries"@),
        ("iso"@, "Disk Images"@),
        ("img"@, "Disk Images"@),
        ("dmg"@, "Disk Images"@),
        ("vdi"@, "Disk Images"@),
        ("vmdk"@, "Disk Images"@),
        ("db"@, "Databases"@),
        ("sqlite"@, "Databases"@),
        ("sql"@, "Databases"@),
        ("mdb"@, "Databases"@),
        ("log"@, "Logs"@),
        ("ttf"@, "Fonts"@),
        ("otf"@, "Fonts"@),
        ("woff"@, "Fonts"@),
        ("woff2"@, "Fonts"@),
    ]
}

fn add_misc(map: &mut Vec<(String, String)>)
    ensures
        pairs_view(final(map)@) =~= pairs_view(old(map)@) + misc_pairs(),
{
    put(map, "json", "Config");
    put(map, "xml", "Config");
    put(map, "yaml", "Config");
    put(map, "yml", "Config");
    put(map, "toml", "Config");
    put(map, "ini", "Config");
    put(map, "conf", "Config");
    put(map, "cfg", "Config");
    put(map, "exe", "Binaries");
    put(map, "dll", "Binaries");
    put(map, "so", "Binaries");
    put(map, "dylib", "Binaries");
    put(map, "bin", "Binaries");
    put(map, "app", "Binaries");
    put(map, "deb", "Binaries");
    put(map, "rpm", "Binaries");
    put(map, "iso", "Disk Images");
    put(map, "img", "Disk Images");
    put(map, "dmg", "Disk Images");
    put(map, "vdi", "Disk Images");
    put(map, "vmdk", "Disk Images");
    put(map, "db", "Databases");
    put(map, "sqlite", "Databases");
    put(map, "sql", "Databases");
    put(map, "mdb", "Databases");
    put(map, "log", "Logs");
    put(map, "ttf", "Fonts");
    put(map, "otf", "Fonts");
    put(map, "woff", "Fonts");
    put(map, "woff2", "Fonts");
    proof {
        assert(pairs_view(map@) =~= pairs_view(old(map)@) + misc_pairs());
    }
}

/// The built-in extension table.
pub open spec fn default_pairs() -> Seq<(Seq<char>, Seq<char>)> {
    image_pairs() + video_pairs() + audio_pairs() + document_pairs() + archive_code_pairs()
        + misc_pairs()
}

/// Builds the built-in extension table.
fn build_default_table(map: &mut Vec<(String, String)>)
    requires
        old(map)@.len() == 0,
    ensures
        pairs_view(final(map)@) =~= default_pairs(),
{
    add_images(map);
    add_videos(map);
    add_audio(map);
    add_documents(map);
    add_archives_code(map);
    add_misc(map);
    proof {
        assert(pairs_view(old(map)@) =~= Seq::<(Seq<char>, Seq<char>)>::empty());
        assert(pairs_view(map@) =~= default_pairs());
    }
}

/// The custom pairs of one category definition, extensions lowercased.
pub open spec fn pairs_of_category(c: CustomCategoryView) -> Seq<(Seq<char>, Seq<char>)> {
    c.extensions.map_values(|e: Seq<char>| (lower_of(e), c.name))
}

/// The custom pairs of all category definitions, in order.
pub open spec fn category_pairs(cs: Seq<CustomCategoryView>) -> Seq<(Seq<char>, Seq<char>)>
    decreases cs.len(),
{
    if cs.len() == 0 {
        Seq::empty()
    } else {
        category_pairs(cs.drop_last()) + pairs_of_category(cs.last())
    }
}

/// The pairs of one extension remap, extensions lowercased.
pub open spec fn pairs_of_remap(m: ExtensionRemapView) -> Seq<(Seq<char>, Seq<char>)> {
    m.extensions.map_values(|e: Seq<char>| (lower_of(e), m.category))
}

/// The pairs of all extension remaps, in order.
pub open spec fn remap_pairs(ms: Seq<ExtensionRemapView>) -> Seq<(Seq<char>, Seq<char>)>
    decreases ms.len(),
{
    if ms.len() == 0 {
        Seq::empty()
    } else {
        remap_pairs(ms.drop_last()) + pairs_of_remap(ms.last())
    }
}

impl Categorizer for TypeCategorizer {
    open spec fn inv(&self) -> bool {
        true
    }

    open spec fn spec_categorize(&self, r: FileMetadataView) -> Seq<char> {
        match r.extension {
            Option::Some(e) => match assoc_last(self.spec_map(), e) {
                Option::Some(c) => c,
                Option::None => "Other"@,
            },
            Option::None => "Other"@,
        }
    }

    open spec fn spec_label(&self, key: Seq<char>) -> Seq<char> {
        key
    }

    fn categorize(&self, r: &FileMetadata) -> (key: String) {
        match &r.extension {
            Option::Some(e) => {
                let n = self.map.len();
                let mut i: usize = n;
                proof {
                    assert(self.spec_map().take(n as int) =~= self.spec_map());
                }
                while i > 0
                    invariant
                        0 <= i <= n,
                        n == self.map@.len(),
                        r@.extension == Option::Some(e@),
                        assoc_last(self.spec_map(), e@) == assoc_last(
                            self.spec_map().take(i as int),
                            e@,
                        ),
                    decreases i,
                {
                    proof {
                        assert(self.spec_map().take(i as int).last() == self.spec_map()[
                            i - 1
                        ]);
                        assert(self.spec_map().take(i as int).drop_last()
                            =~= self.spec_map().take(i as int - 1));
                    }
                    if self.map[i - 1].0 == *e {
                        proof {
                            assert(self.spec_map()[i - 1].0 == e@);
                        }
                        return self.map[i - 1].1.clone();
                    }
                    proof {
                        assert(self.spec_map()[i - 1].0 != e@);
                    }
                    i = i - 1;
                }
                proof {
                    assert(self.spec_map().take(0) =~= Seq::<(Seq<char>, Seq<char>)>::empty());
                }
                "Other".to_owned()
            },
            Option::None => "Other".to_owned(),
        }
    }

    fn get_label(&self, key: &String) -> (label: String) {
        key.clone()
    }

    fn duplicate(&self) -> (c: Self) {
        let mut map: Vec<(String, String)> = Vec::new();
        let mut i: usize = 0;
        while i < self.map.len()
            invariant
                0 <= i <= self.map@.len(),
                pairs_view(map@) =~= pairs_view(self.map@).take(i as int),
            decreases self.map@.len() - i,
        {
            let e = self.map[i].0.clone();
            let c = self.map[i].1.clone();
            let ghost pre = pairs_view(map@);
            map.push((e, c));
            proof {
                assert(pairs_view(map@) =~= pre.push(pairs_view(self.map@)[i as int]));
                assert(pairs_view(self.map@).take(i as int + 1) =~= pairs_view(
                    self.map@,
                ).take(i as int).push(pairs_view(self.map@)[i as int]));
            }
            i = i + 1;
        }
        proof {
            assert(pairs_view(self.map@).take(self.map@.len() as int) =~= pairs_view(
                self.map@,
            ));
        }
        let r = TypeCategorizer { map };
        proof {
            assert(r.spec_map() == self.spec_map());
        }
        r
    }
}

/// Bucket boundaries with display labels; the bucket of a value is the one
/// with the highest boundary not above the value, or the lowest bucket when
/// every boundary is above it.
pub open spec fn bucket_idx(bounds: Seq<u64>, v: u64) -> int
    decreases bounds.len(),
{
    if bounds.len() <= 1 {
        0
    } else if bounds.last() <= v {
        bounds.len() - 1
    } else {
        bucket_idx(bounds.drop_last(), v)
    }
}

/// The views of a boundary-label pair list.
pub open spec fn buckets_view(s: Seq<(u64, String)>) -> Seq<(u64, Seq<char>)> {
    s.map_values(|p: (u64, String)| (p.0, p.1@))
}

/// The boundaries of a boundary-label pair list.
pub open spec fn bounds_of(s: Seq<(u64, Seq<char>)>) -> Seq<u64> {
    s.map_values(|p: (u64, Seq<char>)| p.0)
}

/// Finds the label of the bucket of `v`, as `bucket_idx` states it.
#[verifier::loop_isolation(false)]
fn find_bucket_label(buckets: &Vec<(u64, String)>, v: u64) -> (label: String)
    requires
        buckets@.len() > 0,
    ensures
        label@ == buckets_view(buckets@)[bucket_idx(bounds_of(buckets_view(buckets@)), v)].1,
{
    let ghost bs = bounds_of(buckets_view(buckets@));
    let n = buckets.len();
    let mut i: usize = n;
    proof {
        assert(bs.take(n as int) =~= bs);
    }
    while i > 1
        invariant
            1 <= i <= n,
            bucket_idx(bs, v) == bucket_idx(bs.take(i as int), v),
        decreases i,
    {
        proof {
            assert(bs.take(i as int).last() == bs[i - 1]);
            assert(bs.take(i as int).drop_last() =~= bs.take(i as int - 1));
        }
        if buckets[i - 1].0 <= v {
            proof {
                assert(bucket_idx(bs.take(i as int), v) == i - 1);
            }
            return buckets[i - 1].1.clone();
        }
        i = i - 1;
    }
    proof {
        assert(bucket_idx(bs.take(1), v) == 0);
    }
    buckets[0].1.clone()
}

/// Copies a boundary-label table.
#[verifier::loop_isolation(false)]
fn copy_buckets(src: &Vec<(u64, String)>) -> (r: Vec<(u64, String)>)
    ensures
        buckets_view(r@) =~= buckets_view(src@),
{
    let mut out: Vec<(u64, String)> = Vec::new();
    let mut i: usize = 0;
    while i < src.len()
        invariant
            0 <= i <= src@.len(),
            buckets_view(out@) =~= buckets_view(src@).take(i as int),
        decreases src@.len() - i,
    {
        let b = src[i].0;
        let l = src[i].1.clone();
        let ghost pre = buckets_view(out@);
        out.push((b, l));
        proof {
            assert(buckets_view(out@) =~= pre.push(buckets_view(src@)[i as int]));
            assert(buckets_view(src@).take(i as int + 1) =~= buckets_view(src@).take(
                i as int,
            ).push(buckets_view(src@)[i as int]));
        }
        i = i + 1;
    }
    proof {
        assert(buckets_view(src@).take(src@.len() as int) =~= buckets_view(src@));
    }
    out
}

/// Sorts the values ascending and drops duplicates: the result is strictly
/// ascending and holds exactly the values of the input.
#[verifier::loop_isolation(false)]
pub fn sorted_unique(v: &Vec<u64>) -> (r: Vec<u64>)
    ensures
        forall|i: int, j: int| 0 <= i < j < r@.len() ==> r@[i] < r@[j],
        forall|x: u64| r@.contains(x) <==> v@.contains(x),
        v@.len() > 0 ==> r@.len() > 0,
{
    let mut out: Vec<u64> = Vec::new();
    let mut i: usize = 0;
    while i < v.len()
        invariant
            0 <= i <= v@.len(),
            forall|a: int, b: int| 0 <= a < b < out@.len() ==> out@[a] < out@[b],
            forall|x: u64| out@.contains(x) <==> v@.take(i as int).contains(x),
            i > 0 ==> out@.len() > 0,
        decreases v@.len() - i,
    {
        let x = v[i];
        let mut j: usize = 0;
        while j < out.len() && out[j] < x
            invariant
                0 <= j <= out@.len(),
                forall|t: int| 0 <= t < j ==> out@[t] < x,
            decreases out@.len() - j,
        {
            j = j + 1;
        }
        let ghost before = out@;
        if j == out.len() || out[j] > x {
            out.insert(j, x);
            proof {
                assert(out@ =~= before.insert(j as int, x));
                before.insert_ensures(j as int, x);
                assert forall|y: u64| out@.contains(y) implies before.contains(y) || y
                    == x by {
                    let w = choose|w: int| 0 <= w < out@.len() && #[trigger] out@[w] == y;
                    if w < j {
                        assert(before[w] == y);
                    } else if w > j {
                        assert(before[w - 1] == y);
                    }
                }
                assert forall|y: u64| before.contains(y) || y == x implies out@.contains(
                    y,
                ) by {
                    if before.contains(y) {
                        let w = choose|w: int| 0 <= w < before.len() && #[trigger] before[w] == y;
                        if w < j {
                            assert(out@[w] == y);
                        } else {
                            assert(out@[w + 1] == y);
                        }
                    } else {
                        assert(out@[j as int] == y);
                    }
                }
            }
        } else {
            proof {
                assert(out@[j as int] == x);
                assert(out@.contains(x));
            }
        }
        proof {
            assert(out@.contains(x));
            assert forall|y: u64| before.contains(y) implies out@.contains(y) by {
            }
            assert forall|y: u64| out@.contains(y) && y != x implies before.contains(y) by {
            }
            assert forall|y: u64| v@.take(i as int + 1).contains(y) implies out@.contains(
                y,
            ) by {
                let w = choose|w: int|
                    0 <= w < v@.take(i as int + 1).len() && #[trigger] v@.take(i as int + 1)[w]
                        == y;
                if w < i {
                    assert(v@.take(i as int)[w] == y);
                    assert(v@.take(i as int).contains(y));
                    assert(before.contains(y));
                } else {
                    assert(y == v@[i as int]);
                    assert(y == x);
                }
            }
            assert forall|y: u64| out@.contains(y) implies v@.take(i as int + 1).contains(
                y,
            ) by {
                if y == x {
                    assert(v@.take(i as int + 1)[i as int] == y);
                } else {
                    assert(before.contains(y));
                    assert(v@.take(i as int).contains(y));
                    let w = choose|w: int|
                        0 <= w < v@.take(i as int).len() && #[trigger] v@.take(i as int)[w] == y;
                    assert(v@.take(i as int + 1)[w] == y);
                }
            }
        }
        i = i + 1;
    }
    proof {
        assert(v@.take(v@.len() as int) =~= v@);
    }
    out
}

/// Builds a strictly ascending boundary table from custom boundaries, each
/// labelled with its value and the given suffix.
#[verifier::loop_isolation(false)]
fn build_custom_buckets(bounds: &Vec<u64>, suffix: &str) -> (r: Vec<(u64, String)>)
    requires
        bounds@.len() > 0,
    ensures
        r@.len() > 0,
        forall|i: int, j: int|
            0 <= i < j < r@.len() ==> buckets_view(r@)[i].0 < buckets_view(r@)[j].0,
        forall|x: u64|
            (exists|i: int|
                0 <= i < buckets_view(r@).len() && #[trigger] buckets_view(r@)[i].0 == x)
                <==> bounds@.contains(x),
        forall|i: int|
            0 <= i < r@.len() ==> buckets_view(r@)[i].1 == dec_rep(
                buckets_view(r@)[i].0 as int,
            ) + suffix@,
{
    let sorted = sorted_unique(bounds);
    let mut out: Vec<(u64, String)> = Vec::new();
    let mut i: usize = 0;
    while i < sorted.len()
        invariant
            0 <= i <= sorted@.len(),
            out@.len() == i,
            forall|t: int| 0 <= t < i ==> buckets_view(out@)[t].0 == sorted@[t],
            forall|t: int|
                0 <= t < i ==> buckets_view(out@)[t].1 == dec_rep(sorted@[t] as int) + suffix@,
        decreases sorted@.len() - i,
    {
        let b = sorted[i];
        let label = u64_to_string(b).concat(suffix);
        out.push((b, label));
        i = i + 1;
    }
    proof {
        assert forall|x: u64|
            (exists|t: int| 0 <= t < out@.len() && buckets_view(out@)[t].0 == x)
                <==> bounds@.contains(x) by {
            if exists|t: int| 0 <= t < out@.len() && buckets_view(out@)[t].0 == x {
                let t = choose|t: int| 0 <= t < out@.len() && #[trigger] buckets_view(out@)[t].0 == x;
                assert(sorted@[t] == x);
                assert(sorted@.contains(x));
            }
            if bounds@.contains(x) {
                assert(sorted@.contains(x));
                let t = choose|t: int| 0 <= t < sorted@.len() && #[trigger] sorted@[t] == x;
                assert(buckets_view(out@)[t].0 == x);
            }
        }
    }
    out
}

/// Categorizes by byte-size bucket.
pub struct SizeCategorizer {
    buckets: Vec<(u64, String)>,
}

/// The built-in size buckets.
pub open spec fn default_size_buckets() -> Seq<(u64, Seq<char>)> {
    seq![
        (0u64, "0-1 KiB"@),
        (1024u64, "1-10 KiB"@),
        (10240u64, "10-100 KiB"@),
        (102400u64, "100 KiB-1 MiB"@),
        (1048576u64, "1-10 MiB"@),
        (10485760u64, "10-100 MiB"@),
        (104857600u64, "100 MiB-1 GiB"@),
        (1073741824u64, "1+ GiB"@),
    ]
}

impl SizeCategorizer {
    /// The boundary table as specifications see it.
    pub closed spec fn spec_buckets(&self) -> Seq<(u64, Seq<char>)> {
        buckets_view(self.buckets@)
    }

    /// Creates a size categorizer: with the built-in buckets, or with the
    /// given boundaries sorted ascending and deduplicated, each labelled
    /// `<value>+ bytes`.
    pub fn new(custom: Option<Vec<u64>>) -> (r: Self)
        requires
            custom matches Option::Some(b) ==> b@.len() > 0,
        ensures
            r.inv(),
            custom matches Option::Some(b) ==> forall|i: int, j: int|
                0 <= i < j < r.spec_buckets().len() ==> r.spec_buckets()[i].0
                    < r.spec_buckets()[j].0,
            custom matches Option::Some(b) ==> forall|x: u64|
                (exists|i: int|
                    0 <= i < r.spec_buckets().len() && #[trigger] r.spec_buckets()[i].0 == x)
                    <==> b@.contains(x),
            custom matches Option::Some(b) ==> forall|i: int|
                0 <= i < r.spec_buckets().len() ==> r.spec_buckets()[i].1 == dec_rep(
                    r.spec_buckets()[i].0 as int,
                ) + "+ bytes"@,
            custom is None ==> r.spec_buckets() =~= default_size_buckets(),
    {
        match custom {
            Option::Some(b) => {
                let buckets = build_custom_buckets(&b, "+ bytes");
                SizeCategorizer { buckets }
            },
            Option::None => {
                let mut buckets: Vec<(u64, String)> = Vec::new();
                buckets.push((0, "0-1 KiB".to_owned()));
                buckets.push((1024, "1-10 KiB".to_owned()));
                buckets.push((10240, "10-100 KiB".to_owned()));
                buckets.push((102400, "100 KiB-1 MiB".to_owned()));
                buckets.push((1048576, "1-10 MiB".to_owned()));
                buckets.push((10485760, "10-100 MiB".to_owned()));
                buckets.push((104857600, "100 MiB-1 GiB".to_owned()));
                buckets.push((1073741824, "1+ GiB".to_owned()));
                proof {
                    assert(buckets_view(buckets@) =~= default_size_buckets());
                }
                SizeCategorizer { buckets }
            },
        }
    }
}

impl Categorizer for SizeCategorizer {
    open spec fn inv(&self) -> bool {
        self.spec_buckets().len() > 0
    }

    open spec fn spec_categorize(&self, r: FileMetadataView) -> Seq<char> {
        self.spec_buckets()[bucket_idx(bounds_of(self.spec_buckets()), r.size)].1
    }

    open spec fn spec_label(&self, key: Seq<char>) -> Seq<char> {
        key
    }

    fn categorize(&self, r: &FileMetadata) -> (key: String) {
        find_bucket_label(&self.buckets, r.size)
    }

    fn get_label(&self, key: &String) -> (label: String) {
        key.clone()
    }

    fn duplicate(&self) -> (c: Self) {
        SizeCategorizer { buckets: copy_buckets(&self.buckets) }
    }
}

/// Categorizes by whole days since last modification; records without a
/// modification time fall into `Unknown`.
pub struct AgeCategorizer {
    buckets: Vec<(u64, String)>,
}

/// The built-in age buckets, in days.
pub open spec fn default_age_buckets() -> Seq<(u64, Seq<char>)> {
    seq![
        (0u64, "0-7 days"@),
        (7u64, "7-30 days"@),
        (30u64, "30-90 days"@),
        (90u64, "90-365 days"@),
        (365u64, "1+ years"@),
    ]
}

impl AgeCategorizer {
    /// The boundary table as specifications see it.
    pub closed spec fn spec_buckets(&self) -> Seq<(u64, Seq<char>)> {
        buckets_view(self.buckets@)
    }

    /// Creates an age categorizer: with the built-in buckets, or with the
    /// given boundaries sorted ascending and deduplicated, each labelled
    /// `<value>+ days`.
    pub fn new(custom: Option<Vec<u64>>) -> (r: Self)
        requires
            custom matches Option::Some(b) ==> b@.len() > 0,
        ensures
            r.inv(),
            custom matches Option::Some(b) ==> forall|i: int, j: int|
                0 <= i < j < r.spec_buckets().len() ==> r.spec_buckets()[i].0
                    < r.spec_buckets()[j].0,
            custom matches Option::Some(b) ==> forall|x: u64|
                (exists|i: int|
                    0 <= i < r.spec_buckets().len() && #[trigger] r.spec_buckets()[i].0 == x)
                    <==> b@.contains(x),
            custom matches Option::Some(b) ==> forall|i: int|
                0 <= i < r.spec_buckets().len() ==> r.spec_buckets()[i].1 == dec_rep(
                    r.spec_buckets()[i].0 as int,
                ) + "+ days"@,
            custom is None ==> r.spec_buckets() =~= default_age_buckets(),
    {
        match custom {
            Option::Some(b) => {
                let buckets = build_custom_buckets(&b, "+ days");
                AgeCategorizer { buckets }
            },
            Option::None => {
                let mut buckets: Vec<(u64, String)> = Vec::new();
                buckets.push((0, "0-7 days".to_owned()));
                buckets.push((7, "7-30 days".to_owned()));
                buckets.push((30, "30-90 days".to_owned()));
                buckets.push((90, "90-365 days".to_owned()));
                buckets.push((365, "1+ years".to_owned()));
                proof {
                    assert(buckets_view(buckets@) =~= default_age_buckets());
                }
                AgeCategorizer { buckets }
            },
        }
    }
}

impl Categorizer for AgeCategorizer {
    open spec fn inv(&self) -> bool {
        self.spec_buckets().len() > 0
    }

    open spec fn spec_categorize(&self, r: FileMetadataView) -> Seq<char> {
        match r.age_days {
            Option::Some(d) => self.spec_buckets()[bucket_idx(
                bounds_of(self.spec_buckets()),
                d,
            )].1,
            Option::None => "Unknown"@,
        }
    }

    open spec fn spec_label(&self, key: Seq<char>) -> Seq<char> {
        key
    }

    fn categorize(&self, r: &FileMetadata) -> (key: String) {
        match r.age_days {
            Option::Some(d) => find_bucket_label(&self.buckets, d),
            Option::None => "Unknown".to_owned(),
        }
    }

    fn get_label(&self, key: &String) -> (label: String) {
        key.clone()
    }

    fn duplicate(&self) -> (c: Self) {
        AgeCategorizer { buckets: copy_buckets(&self.buckets) }
    }
}

/// Whole days between a file's modification time and the present moment,
/// both in seconds; a modification time in the future counts as zero days.
pub fn days_since_modified(now_secs: u64, modified_secs: u64) -> (days: u64)
    ensures
        days == if now_secs >= modified_secs {
            (now_secs - modified_secs) / 86400
        } else {
            0
        },
{
    if now_secs >= modified_secs {
        (now_secs - modified_secs) / 86400
    } else {
        0
    }
}

} // verus!
