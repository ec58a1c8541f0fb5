//! The logo catalog: every logo of the logo directory, ordered so that, within
//! a tournament, the logo that applies to the narrowest set of result files
//! comes first.

use crate::names::{
    file_stem, logo_name, option_view, parse_logo_name, strip_extension, LogoName,
    MalformedFileName,
};
use crate::order::{
    descending, in_order, int_order, keys, lemma_descending_is_total, lemma_int_order_is_total,
    lemma_in_order_is_unique, lemma_pair_order_is_total, lemma_row_order_is_total, lemma_str_order_is_total, pair_order,
    seq_less, seq_order, sort, str_is_less, str_order, Ordered,
};
use crate::theme::ThemeColor;
use vstd::prelude::*;
use vstd::relations::*;
use vstd::string::*;

verus! {

/// One file of the logo directory, as found.
#[derive(Debug)]
pub struct LogoFile {
    /// The name of the file, with its extension.
    pub file_name: String,
    /// Where the file is.
    pub path: String,
    /// The theme colour derived from the image.
    pub theme_color: ThemeColor,
}

/// The mathematical value of a `LogoFile`.
pub struct LogoFileView {
    pub file_name: Seq<char>,
    pub path: Seq<char>,
    pub theme_color: ThemeColor,
}

impl View for LogoFile {
    type V = LogoFileView;

    open spec fn view(&self) -> LogoFileView {
        LogoFileView { file_name: self.file_name@, path: self.path@, theme_color: self.theme_color }
    }
}

/// A logo and the result files that it is for.
#[derive(Debug)]
pub struct LogoAsset {
    /// The tournament that the logo belongs to.
    pub tournament_name: String,
    /// The division that the logo is for, or `None` where it is for all.
    pub division: Option<String>,
    /// The first year that the logo is for, or 0 where it is for all.
    pub minimum_year: u32,
    /// Where the image is.
    pub path: String,
    /// The theme colour derived from the image.
    pub theme_color: ThemeColor,
}

/// The mathematical value of a `LogoAsset`.
pub struct LogoAssetView {
    pub tournament_name: Seq<char>,
    pub division: Option<Seq<char>>,
    pub minimum_year: u32,
    pub path: Seq<char>,
    pub theme_color: ThemeColor,
}

impl View for LogoAsset {
    type V = LogoAssetView;

    open spec fn view(&self) -> LogoAssetView {
        LogoAssetView {
            tournament_name: self.tournament_name@,
            division: option_view(self.division),
            minimum_year: self.minimum_year,
            path: self.path@,
            theme_color: self.theme_color,
        }
    }
}

/// An optional string as a row: empty for `None`, so that `None` stands
/// before every string.
pub open spec fn option_row(o: Option<Seq<char>>) -> Seq<Seq<char>> {
    match o {
        Some(s) => seq![s],
        None => Seq::empty(),
    }
}

/// A colour as one number.
pub open spec fn color_number(c: ThemeColor) -> int {
    c.r as int * 65536 + c.g as int * 256 + c.b as int
}

/// What a logo is ranked by: tournament, division, minimum year, path, colour.
pub type Rank = (Seq<char>, (Seq<Seq<char>>, (int, (Seq<char>, int))));

/// The rank of a logo.
pub open spec fn rank(a: LogoAssetView) -> Rank {
    (
        a.tournament_name,
        (
            option_row(a.division),
            (a.minimum_year as int, (a.path, color_number(a.theme_color))),
        ),
    )
}

/// The order of ranks: tournaments in ascending order; within a tournament
/// the divisions in descending order, so that a logo for one division stands
/// before a logo for all; then the later minimum year first; then path and
/// colour in descending order.
pub open spec fn rank_order() -> spec_fn(Rank, Rank) -> bool {
    pair_order(
        str_order(),
        pair_order(
            descending(seq_order(str_order())),
            pair_order(
                descending(int_order()),
                pair_order(descending(str_order()), descending(int_order())),
            ),
        ),
    )
}

/// Whether logo `a` stands before logo `b` in a catalog.
pub open spec fn asset_before(a: LogoAssetView, b: LogoAssetView) -> bool {
    rank_order()(rank(a), rank(b))
}

/// The ranks are strictly and totally ordered.
pub proof fn lemma_rank_order_is_total()
    ensures
        strict_total_ordering(rank_order()),
{
    lemma_str_order_is_total();
    lemma_row_order_is_total();
    lemma_int_order_is_total();
    lemma_descending_is_total(str_order());
    lemma_descending_is_total(seq_order(str_order()));
    lemma_descending_is_total(int_order());
    lemma_pair_order_is_total(descending(str_order()), descending(int_order()));
    lemma_pair_order_is_total(
        descending(int_order()),
        pair_order(descending(str_order()), descending(int_order())),
    );
    lemma_pair_order_is_total(
        descending(seq_order(str_order())),
        pair_order(
            descending(int_order()),
            pair_order(descending(str_order()), descending(int_order())),
        ),
    );
    lemma_pair_order_is_total(
        str_order(),
        pair_order(
            descending(seq_order(str_order())),
            pair_order(
                descending(int_order()),
                pair_order(descending(str_order()), descending(int_order())),
            ),
        ),
    );
}

/// Two logos of one rank are one logo.
proof fn lemma_rank_is_injective(a: LogoAssetView, b: LogoAssetView)
    requires
        rank(a) == rank(b),
    ensures
        a == b,
{
    assert(option_row(a.division) == option_row(b.division));
    if a.division is Some {
        assert(option_row(a.division)[0] == a.division->0);
        assert(option_row(b.division).len() == 1);
        assert(option_row(b.division)[0] == b.division->0);
    } else {
        assert(option_row(b.division).len() == 0);
    }
    assert(a.division == b.division);
    assert(a.theme_color.r == b.theme_color.r && a.theme_color.g == b.theme_color.g
        && a.theme_color.b == b.theme_color.b);
}

/// Whether optional string `a` stands before `b`: `None` before every string.
fn option_is_less(a: &Option<String>, b: &Option<String>) -> (r: bool)
    ensures
        r == seq_less(option_row(option_view(*a)), option_row(option_view(*b)), str_order()),
{
    match (a, b) {
        (Some(x), Some(y)) => {
            proof {
                let (p, q) = (option_row(option_view(*a)), option_row(option_view(*b)));
                assert(p[0] == x@ && q[0] == y@);
                assert(p.skip(1).len() == 0 && q.skip(1).len() == 0);
                assert(!seq_less(p.skip(1), q.skip(1), str_order()));
            }
            str_is_less(x.as_str(), y.as_str())
        },
        (None, Some(_)) => true,
        _ => false,
    }
}

impl Ordered for LogoAsset {
    type Key = LogoAssetView;

    open spec fn key(&self) -> LogoAssetView {
        self@
    }

    open spec fn before(a: LogoAssetView, b: LogoAssetView) -> bool {
        asset_before(a, b)
    }

    proof fn lemma_before_is_total() {
        lemma_rank_order_is_total();
        let r = |a: LogoAssetView, b: LogoAssetView| Self::before(a, b);
        let o = rank_order();
        assert forall|x: LogoAssetView| #[trigger] r(x, x) == false by {
            assert(o(rank(x), rank(x)) == false);
        }
        assert forall|x: LogoAssetView, y: LogoAssetView, z: LogoAssetView| #[trigger] r(x, y)
            && #[trigger] r(y, z) implies r(x, z) by {
            assert(o(rank(x), rank(y)) && o(rank(y), rank(z)));
        }
        assert forall|x: LogoAssetView, y: LogoAssetView| #[trigger] r(x, y) && #[trigger] r(
            y,
            x,
        ) implies x == y by {
            assert(o(rank(x), rank(y)) && o(rank(y), rank(x)));
            lemma_rank_is_injective(x, y);
        }
        assert forall|x: LogoAssetView, y: LogoAssetView| x != y implies #[trigger] r(x, y)
            || #[trigger] r(y, x) by {
            if rank(x) == rank(y) {
                lemma_rank_is_injective(x, y);
            }
            assert(o(rank(x), rank(y)) || o(rank(y), rank(x)));
        }
    }

    fn stands_before(&self, other: &LogoAsset) -> (r: bool) {
        proof {
            lemma_str_order_is_total();
            lemma_row_order_is_total();
        }
        let ghost (a, b) = (self@, other@);
        if str_is_less(self.tournament_name.as_str(), other.tournament_name.as_str()) {
            return true;
        }
        if str_is_less(other.tournament_name.as_str(), self.tournament_name.as_str()) {
            assert(!str_order()(a.tournament_name, b.tournament_name)) by {
                if str_order()(a.tournament_name, b.tournament_name) {
                    assert(str_order()(b.tournament_name, a.tournament_name));
                }
            }
            return false;
        }
        assert(a.tournament_name == b.tournament_name) by {
            assert(!str_order()(a.tournament_name, b.tournament_name));
            assert(!str_order()(b.tournament_name, a.tournament_name));
        }
        assert(str_order()(a.tournament_name, a.tournament_name) == false);
        let ghost (p, q) = (option_row(a.division), option_row(b.division));
        if option_is_less(&other.division, &self.division) {
            return true;
        }
        if option_is_less(&self.division, &other.division) {
            assert(!seq_order(str_order())(q, p));
            assert(p != q) by {
                assert(seq_order(str_order())(p, p) == false);
            }
            return false;
        }
        assert(p == q) by {
            assert(!seq_order(str_order())(p, q));
            assert(!seq_order(str_order())(q, p));
        }
        assert(seq_order(str_order())(p, p) == false);
        if other.minimum_year < self.minimum_year {
            return true;
        }
        if self.minimum_year < other.minimum_year {
            return false;
        }
        if str_is_less(other.path.as_str(), self.path.as_str()) {
            return true;
        }
        if str_is_less(self.path.as_str(), other.path.as_str()) {
            assert(!str_order()(b.path, a.path)) by {
                if str_order()(b.path, a.path) {
                    assert(str_order()(a.path, b.path));
                }
            }
            assert(a.path != b.path) by {
                assert(str_order()(a.path, a.path) == false);
            }
            return false;
        }
        assert(a.path == b.path) by {
            assert(!str_order()(a.path, b.path));
            assert(!str_order()(b.path, a.path));
        }
        assert(str_order()(a.path, a.path) == false);
        let mine: u32 = self.theme_color.r as u32 * 65536 + self.theme_color.g as u32 * 256
            + self.theme_color.b as u32;
        let theirs: u32 = other.theme_color.r as u32 * 65536 + other.theme_color.g as u32 * 256
            + other.theme_color.b as u32;
        theirs < mine
    }
}

/// The logo that a file of the logo directory stands for.
pub open spec fn logo_asset(file: LogoFileView) -> Result<LogoAssetView, MalformedFileName> {
    match logo_name(file_stem(file.file_name)) {
        Ok(name) => Ok(
            LogoAssetView {
                tournament_name: name.tournament_name,
                division: name.division,
                minimum_year: name.minimum_year,
                path: file.path,
                theme_color: file.theme_color,
            },
        ),
        Err(e) => Err(e),
    }
}

/// The views of a sequence of files.
pub open spec fn file_views(files: Seq<LogoFile>) -> Seq<LogoFileView> {
    Seq::new(files.len(), |i: int| files[i]@)
}

/// The logos that the files stand for, in the order of the files.
pub open spec fn logo_assets(files: Seq<LogoFileView>) -> Seq<LogoAssetView> {
    Seq::new(files.len(), |i: int| logo_asset(files[i])->Ok_0)
}

/// Whether no logo stands before one that precedes it.
pub open spec fn catalog_in_order(entries: Seq<LogoAssetView>) -> bool {
    forall|i: int, j: int|
        0 <= i < j < entries.len() ==> !asset_before(#[trigger] entries[j], #[trigger] entries[i])
}

/// Reads one file of the logo directory.
pub fn read_logo_file(file: &LogoFile) -> (r: Result<LogoAsset, MalformedFileName>)
    ensures
        match r {
            Ok(asset) => logo_asset(file@) == Ok::<LogoAssetView, MalformedFileName>(asset@),
            Err(e) => logo_asset(file@) == Err::<LogoAssetView, MalformedFileName>(e),
        },
{
    match parse_logo_name(strip_extension(file.file_name.as_str())) {
        Ok(name) => {
            let LogoName { tournament_name, division, minimum_year } = name;
            Ok(
                LogoAsset {
                    tournament_name,
                    division,
                    minimum_year,
                    path: file.path.clone(),
                    theme_color: file.theme_color,
                },
            )
        },
        Err(e) => Err(e),
    }
}

/// The logos of the logo directory, in the order in which a result file is
/// held against them.
pub struct LogoCatalog {
    logos: Vec<LogoAsset>,
}

impl View for LogoCatalog {
    type V = Seq<LogoAssetView>;

    closed spec fn view(&self) -> Seq<LogoAssetView> {
        keys(self.logos@)
    }
}

impl LogoCatalog {
    #[verifier::type_invariant]
    spec fn ordered(&self) -> bool {
        in_order::<LogoAsset>(keys(self.logos@))
    }

    /// The number of logos.
    pub fn len(&self) -> (n: usize)
        ensures
            n == self@.len(),
    {
        self.logos.len()
    }

    /// The logo at place `i`.
    pub fn get(&self, i: usize) -> (asset: &LogoAsset)
        requires
            i < self@.len(),
        ensures
            asset@ == self@[i as int],
    {
        &self.logos[i]
    }

    /// The logos of a catalog are in order.
    pub fn entries_in_order(&self)
        ensures
            catalog_in_order(self@),
    {
        proof {
            use_type_invariant(self);
        }
    }
}

/// Builds the catalog of a logo directory. It holds the logo of each file,
/// in order. A file name that does not fit the naming scheme is an error.
pub fn get_logo_info(files: &Vec<LogoFile>) -> (r: Result<LogoCatalog, MalformedFileName>)
    ensures
        match r {
            Ok(catalog) => {
                &&& forall|i: int|
                    0 <= i < files@.len() ==> (#[trigger] logo_asset(file_views(files@)[i])) is Ok
                &&& catalog_in_order(catalog@)
                &&& catalog@.to_multiset() == logo_assets(file_views(files@)).to_multiset()
            },
            Err(e) => exists|i: int|
                0 <= i < files@.len() && (#[trigger] logo_asset(file_views(files@)[i])) == Err::<
                    LogoAssetView,
                    MalformedFileName,
                >(e),
        },
{
    let ghost views = file_views(files@);
    let mut logos: Vec<LogoAsset> = Vec::new();
    let mut i: usize = 0;
    while i < files.len()
        invariant
            i <= files@.len(),
            views == file_views(files@),
            logos@.len() == i,
            forall|j: int| 0 <= j < i ==> (#[trigger] logo_asset(views[j])) is Ok,
            forall|j: int| 0 <= j < i ==> (#[trigger] logos@[j])@ == logo_asset(views[j])->Ok_0,
        decreases files@.len() - i,
    {
        match read_logo_file(&files[i]) {
            Ok(asset) => {
                logos.push(asset);
            },
            Err(e) => {
                assert(logo_asset(views[i as int]) == Err::<LogoAssetView, MalformedFileName>(e));
                return Err(e);
            },
        }
        i += 1;
    }
    assert(keys(logos@) =~= logo_assets(views));
    let sorted = sort(logos);
    Ok(LogoCatalog { logos: sorted })
}

/// The catalog does not depend on the order in which the directory was
/// listed: two catalogs that hold the same logos are the same catalog.
pub proof fn lemma_catalog_is_unique(a: Seq<LogoAssetView>, b: Seq<LogoAssetView>)
    requires
        catalog_in_order(a),
        catalog_in_order(b),
        a.to_multiset() == b.to_multiset(),
    ensures
        a == b,
{
    lemma_in_order_is_unique::<LogoAsset>(a, b);
}

/// The logos of one tournament, in the order of the catalog.
pub open spec fn candidates(entries: Seq<LogoAssetView>, name: Seq<char>) -> Seq<LogoAssetView>
    decreases entries.len(),
{
    if entries.len() == 0 {
        Seq::empty()
    } else if entries[0].tournament_name == name {
        seq![entries[0]] + candidates(entries.skip(1), name)
    } else {
        candidates(entries.skip(1), name)
    }
}

/// The catalog as a map: each tournament that has a logo, with its logos in
/// the order of the catalog.
pub open spec fn catalog_map(entries: Seq<LogoAssetView>) -> Map<Seq<char>, Seq<LogoAssetView>> {
    Map::new(
        |name: Seq<char>| candidates(entries, name).len() > 0,
        |name: Seq<char>| candidates(entries, name),
    )
}

/// The candidates of a tournament are logos of the catalog, and of that
/// tournament.
pub proof fn lemma_candidates_are_entries(entries: Seq<LogoAssetView>, name: Seq<char>)
    ensures
        forall|k: int|
            0 <= k < candidates(entries, name).len() ==> {
                &&& (#[trigger] candidates(entries, name)[k]).tournament_name == name
                &&& entries.contains(candidates(entries, name)[k])
            },
    decreases entries.len(),
{
    if entries.len() > 0 {
        let rest = entries.skip(1);
        lemma_candidates_are_entries(rest, name);
        let found = candidates(entries, name);
        assert forall|k: int| 0 <= k < found.len() implies {
            &&& (#[trigger] found[k]).tournament_name == name
            &&& entries.contains(found[k])
        } by {
            let taken = entries[0].tournament_name == name;
            if taken && k == 0 {
                assert(found[k] == entries[0]);
            } else {
                let inner = if taken { k - 1 } else { k };
                let asset = candidates(rest, name)[inner];
                assert(found[k] == asset);
                assert(rest.contains(asset));
                let at = choose|at: int| 0 <= at < rest.len() && rest[at] == asset;
                assert(entries[at + 1] == asset);
            }
        }
    }
}

/// A tournament has candidates where the catalog holds a logo of it.
pub proof fn lemma_tournament_has_candidates(
    entries: Seq<LogoAssetView>,
    name: Seq<char>,
    i: int,
)
    requires
        0 <= i < entries.len(),
        entries[i].tournament_name == name,
    ensures
        candidates(entries, name).contains(entries[i]),
        catalog_map(entries).dom().contains(name),
    decreases entries.len(),
{
    let found = candidates(entries, name);
    if i == 0 {
        assert(found[0] == entries[0]);
    } else {
        let rest = entries.skip(1);
        lemma_tournament_has_candidates(rest, name, i - 1);
        let inner = candidates(rest, name);
        let at = choose|at: int| 0 <= at < inner.len() && inner[at] == rest[i - 1];
        if entries[0].tournament_name == name {
            assert(found[at + 1] == entries[i]);
        } else {
            assert(found[at] == entries[i]);
        }
    }
}

/// The candidates of a tournament stand in the order of the catalog: a logo
/// for a division before a logo for all divisions, and, for one division,
/// the later minimum year first.
pub proof fn lemma_candidates_in_order(entries: Seq<LogoAssetView>, name: Seq<char>)
    requires
        catalog_in_order(entries),
    ensures
        catalog_in_order(candidates(entries, name)),
        forall|i: int, j: int|
            0 <= i < j < candidates(entries, name).len() ==> {
                let first = #[trigger] candidates(entries, name)[i];
                let second = #[trigger] candidates(entries, name)[j];
                &&& second.division is Some ==> first.division is Some
                &&& first.division == second.division ==> first.minimum_year
                    >= second.minimum_year
            },
    decreases entries.len(),
{
    let found = candidates(entries, name);
    if entries.len() > 0 {
        let rest = entries.skip(1);
        assert(catalog_in_order(rest)) by {
            assert forall|i: int, j: int| 0 <= i < j < rest.len() implies !asset_before(
                #[trigger] rest[j],
                #[trigger] rest[i],
            ) by {
                assert(!asset_before(entries[j + 1], entries[i + 1]));
            }
        }
        lemma_candidates_in_order(rest, name);
        lemma_candidates_are_entries(rest, name);
        let inner = candidates(rest, name);
        assert forall|i: int, j: int| 0 <= i < j < found.len() implies !asset_before(
            #[trigger] found[j],
            #[trigger] found[i],
        ) by {
            if entries[0].tournament_name == name {
                if i == 0 {
                    let asset = inner[j - 1];
                    assert(found[j] == asset);
                    assert(rest.contains(asset));
                    let at = choose|at: int| 0 <= at < rest.len() && rest[at] == asset;
                    assert(!asset_before(entries[at + 1], entries[0]));
                } else {
                    assert(found[i] == inner[i - 1] && found[j] == inner[j - 1]);
                }
            }
        }
    }
    lemma_candidates_are_entries(entries, name);
    assert forall|i: int, j: int| 0 <= i < j < found.len() implies {
        let first = #[trigger] found[i];
        let second = #[trigger] found[j];
        &&& second.division is Some ==> first.division is Some
        &&& first.division == second.division ==> first.minimum_year >= second.minimum_year
    } by {
        let (first, second) = (found[i], found[j]);
        assert(!asset_before(second, first));
        assert(!rank_order()(rank(second), rank(first)));
        assert(!seq_less(option_row(first.division), option_row(second.division), str_order()));
    }
}

} // verus!
