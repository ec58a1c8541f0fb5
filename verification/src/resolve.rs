//! The resolver: which logo and which theme colour a result file gets.

use crate::catalog::{
    asset_before, candidates, catalog_in_order, option_row, rank, rank_order, LogoAssetView,
    LogoCatalog,
};
use crate::names::{
    parse_result_file_name, result_identity, MalformedFileName, ResultFileIdentityView,
};
use crate::order::{seq_less, str_order};
use crate::theme::{default_theme_color, ThemeColor};
use vstd::prelude::*;
use vstd::string::*;

verus! {

/// The logo and the theme colour of a result file.
#[derive(Debug)]
pub struct ResolvedLogo {
    /// The place in the catalog of the logo chosen, or `None` where the
    /// default logo was.
    pub entry: Option<usize>,
    /// Where the image is.
    pub path: String,
    /// The theme colour that goes with the logo.
    pub theme_color: ThemeColor,
}

/// The mathematical value of a `ResolvedLogo`.
pub struct ResolvedLogoView {
    pub entry: Option<usize>,
    pub path: Seq<char>,
    pub theme_color: ThemeColor,
}

impl View for ResolvedLogo {
    type V = ResolvedLogoView;

    open spec fn view(&self) -> ResolvedLogoView {
        ResolvedLogoView { entry: self.entry, path: self.path@, theme_color: self.theme_color }
    }
}

/// Where the default logo is.
pub open spec fn default_logo_path() -> Seq<char> {
    "public/results/logos/default.png"@
}

/// Whether a logo is for a result file: it belongs to the tournament, is for
/// all divisions or for the file's own, and its minimum year has come.
pub open spec fn applies(asset: LogoAssetView, id: ResultFileIdentityView) -> bool {
    &&& asset.tournament_name == id.tournament_name
    &&& (asset.division is None || asset.division == Some(id.division))
    &&& asset.minimum_year <= id.year
}

/// The outcome `out` is what the catalog gives the result file: the first
/// logo that applies, with its path and colour, or else the default logo
/// with the default colour.
pub open spec fn resolves_to(
    entries: Seq<LogoAssetView>,
    id: ResultFileIdentityView,
    out: ResolvedLogoView,
) -> bool {
    match out.entry {
        Some(i) => {
            &&& i < entries.len()
            &&& applies(entries[i as int], id)
            &&& forall|j: int| 0 <= j < i ==> !applies(#[trigger] entries[j], id)
            &&& out.path == entries[i as int].path
            &&& out.theme_color == entries[i as int].theme_color
        },
        None => {
            &&& forall|j: int| 0 <= j < entries.len() ==> !applies(#[trigger] entries[j], id)
            &&& out.path == default_logo_path()
            &&& out.theme_color == default_theme_color()
        },
    }
}

/// Chooses the logo and the theme colour of a result file by its name.
pub fn get_logo_path_and_color(source_file_name: &str, catalog: &LogoCatalog) -> (r: Result<
    ResolvedLogo,
    MalformedFileName,
>)
    ensures
        match result_identity(source_file_name@) {
            Ok(id) => r is Ok && resolves_to(catalog@, id, r->Ok_0@),
            Err(e) => r == Err::<ResolvedLogo, MalformedFileName>(e),
        },
{
    let id = match parse_result_file_name(source_file_name) {
        Ok(id) => id,
        Err(e) => {
            return Err(e);
        },
    };
    let n = catalog.len();
    let mut i: usize = 0;
    while i < n
        invariant
            n == catalog@.len(),
            i <= n,
            result_identity(source_file_name@) == Ok::<ResultFileIdentityView, MalformedFileName>(
                id@,
            ),
            forall|j: int| 0 <= j < i ==> !applies(#[trigger] catalog@[j], id@),
        decreases n - i,
    {
        let asset = catalog.get(i);
        let for_division = match &asset.division {
            Some(division) => *division == id.division,
            None => true,
        };
        if asset.tournament_name == id.tournament_name && for_division && asset.minimum_year
            <= id.year {
            return Ok(
                ResolvedLogo {
                    entry: Some(i),
                    path: asset.path.clone(),
                    theme_color: asset.theme_color,
                },
            );
        }
        i += 1;
    }
    Ok(
        ResolvedLogo {
            entry: None,
            path: "public/results/logos/default.png".to_owned(),
            theme_color: ThemeColor::default_color(),
        },
    )
}

/// Resolving is a function of the file name and the catalog: two outcomes
/// for one result file and one catalog are the same outcome.
pub proof fn lemma_resolution_is_deterministic(
    entries: Seq<LogoAssetView>,
    id: ResultFileIdentityView,
    first: ResolvedLogoView,
    second: ResolvedLogoView,
)
    requires
        resolves_to(entries, id, first),
        resolves_to(entries, id, second),
    ensures
        first == second,
{
    if first.entry is Some && second.entry is Some {
        let (i, j) = (first.entry->0, second.entry->0);
        if i < j {
            assert(!applies(entries[i as int], id));
        }
        if j < i {
            assert(!applies(entries[j as int], id));
        }
    } else if first.entry is Some {
        assert(!applies(entries[first.entry->0 as int], id));
    } else if second.entry is Some {
        assert(!applies(entries[second.entry->0 as int], id));
    }
}

/// A result file gets the default logo and the default colour where the
/// catalog holds no logo of its tournament, and where none of them is for
/// its division and year.
pub proof fn lemma_default_fallback(
    entries: Seq<LogoAssetView>,
    id: ResultFileIdentityView,
    out: ResolvedLogoView,
)
    requires
        resolves_to(entries, id, out),
        (forall|j: int|
            0 <= j < entries.len() ==> (#[trigger] entries[j]).tournament_name
                != id.tournament_name) || (forall|j: int|
            0 <= j < entries.len() ==> !applies(#[trigger] entries[j], id)),
    ensures
        out.entry is None,
        out.path == default_logo_path(),
        out.theme_color == default_theme_color(),
{
    if out.entry is Some {
        let i = out.entry->0 as int;
        assert(applies(entries[i], id));
    }
}

/// The first logo that applies is the most specific one. Of the logos that
/// are for a result file, one for its division is chosen before one for all
/// divisions, and, among those of the same division, the one with the latest
/// minimum year.
pub proof fn lemma_first_match_is_most_specific(
    entries: Seq<LogoAssetView>,
    id: ResultFileIdentityView,
    out: ResolvedLogoView,
    j: int,
)
    requires
        catalog_in_order(entries),
        resolves_to(entries, id, out),
        0 <= j < entries.len(),
        applies(entries[j], id),
    ensures
        out.entry is Some,
        entries[j].division is Some ==> entries[out.entry->0 as int].division is Some,
        entries[j].division == entries[out.entry->0 as int].division ==> entries[j].minimum_year
            <= entries[out.entry->0 as int].minimum_year,
{
    let i = out.entry->0 as int;
    let (chosen, other) = (entries[i], entries[j]);
    if i < j {
        assert(!asset_before(other, chosen));
        assert(!rank_order()(rank(other), rank(chosen)));
        let (p, q) = (option_row(chosen.division), option_row(other.division));
        assert(!seq_less(p, q, str_order()));
    }
}

/// Conversely, a logo that applies and is as specific as the rule asks is
/// for the same division and the same minimum year as the logo chosen.
pub proof fn lemma_most_specific_is_first_match(
    entries: Seq<LogoAssetView>,
    id: ResultFileIdentityView,
    out: ResolvedLogoView,
    best: int,
)
    requires
        catalog_in_order(entries),
        resolves_to(entries, id, out),
        0 <= best < entries.len(),
        applies(entries[best], id),
        forall|j: int|
            0 <= j < entries.len() && applies(#[trigger] entries[j], id) ==> {
                &&& entries[j].division is Some ==> entries[best].division is Some
                &&& entries[j].division == entries[best].division ==> entries[j].minimum_year
                    <= entries[best].minimum_year
            },
    ensures
        out.entry is Some,
        entries[out.entry->0 as int].division == entries[best].division,
        entries[out.entry->0 as int].minimum_year == entries[best].minimum_year,
{
    lemma_first_match_is_most_specific(entries, id, out, best);
    let i = out.entry->0 as int;
    assert(applies(entries[i], id));
}

/// Whether a logo of the tournament of a result file is for the file: it is
/// for all divisions or for the file's own, and its minimum year has come.
pub open spec fn suits(asset: LogoAssetView, id: ResultFileIdentityView) -> bool {
    (asset.division is None || asset.division == Some(id.division)) && asset.minimum_year
        <= id.year
}

/// The first of the candidates that suits a result file.
pub open spec fn first_suiting(found: Seq<LogoAssetView>, id: ResultFileIdentityView) -> Option<
    LogoAssetView,
>
    decreases found.len(),
{
    if found.len() == 0 {
        None
    } else if suits(found[0], id) {
        Some(found[0])
    } else {
        first_suiting(found.skip(1), id)
    }
}

/// Resolving looks the tournament up and scans its candidates: the logo
/// chosen is the first candidate of the tournament that suits the result
/// file, and the default logo is chosen where the tournament has no
/// candidate or none that suits.
pub proof fn lemma_resolution_scans_candidates(
    entries: Seq<LogoAssetView>,
    id: ResultFileIdentityView,
    out: ResolvedLogoView,
)
    requires
        resolves_to(entries, id, out),
    ensures
        match first_suiting(candidates(entries, id.tournament_name), id) {
            Some(asset) => out.entry is Some && entries[out.entry->0 as int] == asset,
            None => out.entry is None,
        },
    decreases entries.len(),
{
    if entries.len() == 0 {
    } else if applies(entries[0], id) {
        if out.entry is Some && out.entry->0 > 0 {
            assert(!applies(entries[0], id));
        }
    } else {
        let rest = entries.skip(1);
        let shifted = ResolvedLogoView {
            entry: match out.entry {
                Some(i) => Some((i - 1) as usize),
                None => None,
            },
            path: out.path,
            theme_color: out.theme_color,
        };
        assert(resolves_to(rest, id, shifted)) by {
            if out.entry is Some {
                let i = out.entry->0 as int;
                assert(rest[i - 1] == entries[i]);
                assert forall|j: int| 0 <= j < i - 1 implies !applies(#[trigger] rest[j], id) by {
                    assert(rest[j] == entries[j + 1]);
                }
            } else {
                assert forall|j: int| 0 <= j < rest.len() implies !applies(
                    #[trigger] rest[j],
                    id,
                ) by {
                    assert(rest[j] == entries[j + 1]);
                }
            }
        }
        lemma_resolution_scans_candidates(rest, id, shifted);
        let inner = candidates(rest, id.tournament_name);
        if entries[0].tournament_name == id.tournament_name {
            let found = candidates(entries, id.tournament_name);
            assert(found[0] == entries[0]);
            assert(found.skip(1) =~= inner);
        }
    }
}

} // verus!
