//! Configuration data for custom categories, extension remaps and colors,
//! and the color resolution rules for rendered buckets. Loading the
//! configuration from disk is a collaborator concern; the core only consumes
//! the loaded values.

use vstd::prelude::*;

verus! {

use crate::categorize::{assoc_last, assoc_lookup, pairs_view};
use crate::types::Bucket;

/// A custom category: its name, the extensions it claims, and an optional
/// display color.
#[derive(Debug, Clone)]
pub struct CustomCategory {
    pub name: String,
    pub extensions: Vec<String>,
    pub color: Option<String>,
}

/// The mathematical image of a custom category.
pub struct CustomCategoryView {
    pub name: Seq<char>,
    pub extensions: Seq<Seq<char>>,
    pub color: Option<Seq<char>>,
}

impl View for CustomCategory {
    type V = CustomCategoryView;

    open spec fn view(&self) -> CustomCategoryView {
        CustomCategoryView {
            name: self.name@,
            extensions: self.extensions@.map_values(|e: String| e@),
            color: match self.color {
                Option::Some(c) => Option::Some(c@),
                Option::None => Option::None,
            },
        }
    }
}

/// Reassigns extensions to a different category.
#[derive(Debug, Clone)]
pub struct ExtensionRemap {
    pub extensions: Vec<String>,
    pub category: String,
}

/// The mathematical image of an extension remap.
pub struct ExtensionRemapView {
    pub extensions: Seq<Seq<char>>,
    pub category: Seq<char>,
}

impl View for ExtensionRemap {
    type V = ExtensionRemapView;

    open spec fn view(&self) -> ExtensionRemapView {
        ExtensionRemapView {
            extensions: self.extensions@.map_values(|e: String| e@),
            category: self.category@,
        }
    }
}

/// Display settings.
#[derive(Debug, Clone)]
pub struct DisplayConfig {
    /// Whether to fall back to percentage-based coloring.
    pub use_percentage_colors: bool,
}

impl Default for DisplayConfig {
    /// Percentage-based coloring is on by default.
    fn default() -> (r: Self)
        ensures
            r.use_percentage_colors,
    {
        DisplayConfig { use_percentage_colors: true }
    }
}

/// The loaded configuration: custom categories, extension remaps and color
/// overrides, each color table a list of key-color pairs where a later pair
/// overrides an earlier one.
#[derive(Debug, Clone)]
pub struct SpacemapConfig {
    pub categories: Vec<CustomCategory>,
    pub remaps: Vec<ExtensionRemap>,
    pub category_colors: Vec<(String, String)>,
    pub extension_colors: Vec<(String, String)>,
    pub display: DisplayConfig,
}

impl Default for SpacemapConfig {
    /// The default configuration is empty, with percentage coloring on.
    fn default() -> (r: Self)
        ensures
            r.categories@.len() == 0,
            r.remaps@.len() == 0,
            r.category_colors@.len() == 0,
            r.extension_colors@.len() == 0,
            r.display.use_percentage_colors,
    {
        SpacemapConfig {
            categories: Vec::new(),
            remaps: Vec::new(),
            category_colors: Vec::new(),
            extension_colors: Vec::new(),
            display: DisplayConfig { use_percentage_colors: true },
        }
    }
}

/// The first category of the list whose name is `key` and which carries a
/// color.
pub open spec fn first_category_color(cs: Seq<CustomCategoryView>, key: Seq<char>) -> Option<
    Seq<char>,
>
    decreases cs.len(),
{
    if cs.len() == 0 {
        Option::None
    } else if cs.first().name == key && cs.first().color is Some {
        cs.first().color
    } else {
        first_category_color(cs.drop_first(), key)
    }
}

/// The percentage fallback color, over hundredths of a percent: above 50%
/// red, above 20% yellow, otherwise white.
pub open spec fn percent_color(percent_hundredths: u64) -> Seq<char> {
    if percent_hundredths > 5000 {
        "red"@
    } else if percent_hundredths > 2000 {
        "yellow"@
    } else {
        "white"@
    }
}

/// Resolves the display color of a bucket with priority: a color for the
/// representative extension first, then a color for the category key, then
/// the first matching custom category's own color, then the percentage
/// fallback when it is enabled.
pub open spec fn spec_bucket_color(
    cfg: SpacemapConfig,
    key: Seq<char>,
    percent_hundredths: u64,
    extension: Option<Seq<char>>,
) -> Option<Seq<char>> {
    let ext_hit = match extension {
        Option::Some(e) => assoc_last(pairs_view(cfg.extension_colors@), e),
        Option::None => Option::None,
    };
    if ext_hit is Some {
        ext_hit
    } else if assoc_last(pairs_view(cfg.category_colors@), key) is Some {
        assoc_last(pairs_view(cfg.category_colors@), key)
    } else if first_category_color(
        cfg.categories@.map_values(|c: CustomCategory| c@),
        key,
    ) is Some {
        first_category_color(cfg.categories@.map_values(|c: CustomCategory| c@), key)
    } else if cfg.display.use_percentage_colors {
        Option::Some(percent_color(percent_hundredths))
    } else {
        Option::None
    }
}

/// Resolves bucket colors against a loaded configuration.
pub struct ColorResolver {
    config: SpacemapConfig,
}

impl ColorResolver {
    /// The configuration the resolver was built with.
    pub closed spec fn spec_config(&self) -> SpacemapConfig {
        self.config
    }

    /// Creates a resolver over a loaded configuration.
    pub fn new(config: SpacemapConfig) -> (r: Self)
        ensures
            r.spec_config() == config,
    {
        ColorResolver { config }
    }

    /// Resolves the color of one bucket, as `spec_bucket_color` states it.
    #[verifier::loop_isolation(false)]
    pub fn resolve_bucket_color(&self, bucket: &Bucket, extension: Option<&String>) -> (r:
        Option<String>)
        ensures
            match r {
                Option::Some(c) => spec_bucket_color(
                    self.spec_config(),
                    bucket.key@,
                    bucket.percent_hundredths,
                    match extension {
                        Option::Some(e) => Option::Some(e@),
                        Option::None => Option::None,
                    },
                ) == Option::Some(c@),
                Option::None => spec_bucket_color(
                    self.spec_config(),
                    bucket.key@,
                    bucket.percent_hundredths,
                    match extension {
                        Option::Some(e) => Option::Some(e@),
                        Option::None => Option::None,
                    },
                ) is None,
            },
    {
        if let Option::Some(e) = extension {
            match assoc_lookup(&self.config.extension_colors, e) {
                Option::Some(c) => {
                    return Option::Some(c);
                },
                Option::None => {},
            }
        }
        match assoc_lookup(&self.config.category_colors, &bucket.key) {
            Option::Some(c) => {
                return Option::Some(c);
            },
            Option::None => {},
        }
        let ghost cs = self.config.categories@.map_values(|c: CustomCategory| c@);
        let n = self.config.categories.len();
        let mut i: usize = 0;
        proof {
            assert(cs.skip(0) =~= cs);
        }
        while i < n
            invariant
                0 <= i <= n,
                n == self.config.categories@.len(),
                cs == self.config.categories@.map_values(|c: CustomCategory| c@),
                first_category_color(cs, bucket.key@) == first_category_color(
                    cs.skip(i as int),
                    bucket.key@,
                ),
            decreases n - i,
        {
            proof {
                assert(cs.skip(i as int).first() == cs[i as int]);
                assert(cs.skip(i as int).drop_first() =~= cs.skip(i as int + 1));
            }
            let cat = &self.config.categories[i];
            if cat.name == bucket.key {
                match &cat.color {
                    Option::Some(c) => {
                        proof {
                            assert(cs[i as int].name == bucket.key@);
                            assert(cs[i as int].color == Option::Some(c@));
                        }
                        return Option::Some(c.clone());
                    },
                    Option::None => {},
                }
            }
            proof {
                assert(!(cs[i as int].name == bucket.key@ && cs[i as int].color is Some));
            }
            i = i + 1;
        }
        proof {
            assert(cs.skip(n as int).len() == 0);
        }
        if self.config.display.use_percentage_colors {
            if bucket.percent_hundredths > 5000 {
                Option::Some("red".to_owned())
            } else if bucket.percent_hundredths > 2000 {
                Option::Some("yellow".to_owned())
            } else {
                Option::Some("white".to_owned())
            }
        } else {
            Option::None
        }
    }
}

} // verus!
