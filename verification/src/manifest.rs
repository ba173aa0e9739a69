//! The manifest: from a JSON document to a catalog.

use vstd::prelude::*;

use crate::catalog;
use crate::catalog::WallpaperCatalog;
use crate::json;
use crate::json::Json;
use crate::strings::StringsCatalog;
use crate::text;

pub mod assets;
pub mod grouped;
pub mod placement;
pub mod structured;

pub use assets::{extract_asset, pick_url, resolve_label, string_field};
pub use grouped::{
    collect_grouped_assets, is_container_key, is_metadata_key, parse_heuristic_catalog,
};
pub use structured::{parse_structured_catalog, ref_id, resolve_asset_target};

verus! {

/// Why a manifest gives no catalog.
#[derive(Debug)]
pub enum ManifestError {
    /// The file could not be read.
    Io(String),
    /// The file is no JSON document.
    Json(String),
    /// The document describes nothing to download.
    Empty,
}

/// The content of a [`ManifestError`].
pub enum ManifestFault {
    Io(Seq<char>),
    Json(Seq<char>),
    Empty,
}

impl View for ManifestError {
    type V = ManifestFault;

    open spec fn view(&self) -> ManifestFault {
        match self {
            ManifestError::Io(words) => ManifestFault::Io(words@),
            ManifestError::Json(words) => ManifestFault::Json(words@),
            ManifestError::Empty => ManifestFault::Empty,
        }
    }
}

impl ManifestError {
    /// The error in words.
    pub fn message(&self) -> (words: String)
        ensures
            words@ == match self@ {
                ManifestFault::Io(fault) => "failed to read manifest: "@ + fault,
                ManifestFault::Json(fault) => "failed to parse manifest JSON: "@ + fault,
                ManifestFault::Empty => "manifest did not contain any downloadable assets"@,
            },
    {
        match self {
            ManifestError::Io(fault) => {
                let mut words = "failed to read manifest: ".to_owned();
                words.append(fault.as_str());
                words
            },
            ManifestError::Json(fault) => {
                let mut words = "failed to parse manifest JSON: ".to_owned();
                words.append(fault.as_str());
                words
            },
            ManifestError::Empty => "manifest did not contain any downloadable assets".to_owned(),
        }
    }
}

/// The catalog that a document describes. One with categories and assets is read as structured, any
/// other as grouped.
pub open spec fn document_catalog(
    tree: json::Tree,
    labels: Option<Map<Seq<char>, Seq<char>>>,
) -> Option<Seq<catalog::Category>> {
    if json::field(tree, "categories"@) is Some && json::field(tree, "assets"@) is Some {
        structured::structured_catalog(tree, labels)
    } else {
        grouped::grouped_catalog(tree, labels)
    }
}

/// Reads the catalog that a document describes.
pub fn parse_catalog(json: &Json, strings: Option<&StringsCatalog>) -> (found: Option<
    WallpaperCatalog,
>)
    ensures
        match found {
            Some(found) => document_catalog(json@, assets::labels_in(strings)) == Some(found@)
                && catalog::countable(found@),
            None => document_catalog(json@, assets::labels_in(strings)) is None,
        },
{
    if json.get("categories").is_some() && json.get("assets").is_some() {
        parse_structured_catalog(json, strings)
    } else {
        parse_heuristic_catalog(json, strings)
    }
}

/// A catalog has a subcategory.
pub proof fn law_catalogs_have_a_subcategory(
    tree: json::Tree,
    labels: Option<Map<Seq<char>, Seq<char>>>,
)
    requires
        document_catalog(tree, labels) is Some,
    ensures
        !catalog::bare(document_catalog(tree, labels)->0),
{
    if !(json::field(tree, "categories"@) is Some && json::field(tree, "assets"@) is Some) {
        grouped::law_grouped_catalog_holds_each_asset(tree, labels);
    }
}

/// A document with categories and assets is read as structured, and then both have to be lists; any
/// other is read as grouped.
pub proof fn law_documents_with_both_lists_are_structured(
    tree: json::Tree,
    labels: Option<Map<Seq<char>, Seq<char>>>,
)
    ensures
        ({
            let categories = json::field(tree, "categories"@);
            let items = json::field(tree, "assets"@);
            if categories is Some && items is Some {
                if categories->0 is Array && items->0 is Array {
                    document_catalog(tree, labels) == structured::assembled(
                        categories->0->Array_0,
                        items->0->Array_0,
                        labels,
                    )
                } else {
                    document_catalog(tree, labels) is None
                }
            } else {
                document_catalog(tree, labels) == grouped::grouped_catalog(tree, labels)
            }
        }),
{
}

/// The catalog that the text of a manifest gives, or why it gives none.
pub open spec fn manifest_catalog(
    raw: Seq<char>,
    labels: Option<Map<Seq<char>, Seq<char>>>,
) -> Result<Seq<catalog::Category>, ManifestFault> {
    match json::json_reading(raw) {
        Ok(tree) => match document_catalog(tree, labels) {
            Some(found) => Ok(found),
            None => Err(ManifestFault::Empty),
        },
        Err(words) => Err(ManifestFault::Json(words)),
    }
}

/// Loads a manifest, given what reading its file came to.
pub fn load_manifest(read: Result<String, String>, strings: Option<&StringsCatalog>) -> (loaded:
    Result<WallpaperCatalog, ManifestError>)
    ensures
        match read {
            Err(words) => loaded matches Err(error) && error@ == ManifestFault::Io(words@),
            Ok(raw) => match manifest_catalog(raw@, assets::labels_in(strings)) {
                Ok(found) => loaded matches Ok(catalog) && catalog@ == found
                    && catalog::countable(catalog@),
                Err(fault) => loaded matches Err(error) && error@ == fault,
            },
        },
{
    let raw = match read {
        Ok(raw) => raw,
        Err(words) => {
            return Err(ManifestError::Io(words));
        },
    };
    match json::parse_json(raw.as_str()) {
        Ok(json) => match parse_catalog(&json, strings) {
            Some(catalog) => Ok(catalog),
            None => Err(ManifestError::Empty),
        },
        Err(words) => Err(ManifestError::Json(words)),
    }
}

/// The text of a manifest gives the catalog of the document that it is. It is refused as no
/// document where it is none, and as empty where that gives no catalog.
pub proof fn law_manifests_give_their_catalog(
    raw: Seq<char>,
    labels: Option<Map<Seq<char>, Seq<char>>>,
    tree: json::Tree,
    words: Seq<char>,
)
    ensures
        json::json_reading(raw) == Ok::<json::Tree, Seq<char>>(tree) && document_catalog(
            tree,
            labels,
        ) is Some ==> manifest_catalog(raw, labels) == Ok::<Seq<catalog::Category>, ManifestFault>(
            document_catalog(tree, labels)->0,
        ),
        json::json_reading(raw) == Ok::<json::Tree, Seq<char>>(tree) && document_catalog(
            tree,
            labels,
        ) is None ==> manifest_catalog(raw, labels) == Err::<
            Seq<catalog::Category>,
            ManifestFault,
        >(ManifestFault::Empty),
        json::json_reading(raw) == Err::<json::Tree, Seq<char>>(words) ==> manifest_catalog(
            raw,
            labels,
        ) == Err::<Seq<catalog::Category>, ManifestFault>(ManifestFault::Json(words)),
{
}

} // verus!
