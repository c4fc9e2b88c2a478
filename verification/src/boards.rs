//! Board catalog: assembles `BoardConfig` entries from a directory scan and
//! looks boards up by id.
//!
//! The catalog is stateless and best-effort: a scanned directory whose
//! descriptor failed to parse contributes nothing, and never fails the scan.

use vstd::prelude::*;

verus! {

/// The parsed contents of one board descriptor file.
#[derive(Debug)]
pub struct BoardDescriptor {
    pub id: String,
    pub name: String,
    pub mcu: String,
    pub architecture: String,
    pub ram_kb: u32,
    pub flash_kb: u32,
}

/// One supported hardware target, with the template root derived from the
/// directory its descriptor was found in.
#[derive(Debug)]
pub struct BoardConfig {
    pub id: String,
    pub name: String,
    pub mcu: String,
    pub architecture: String,
    pub ram_kb: u32,
    pub flash_kb: u32,
    pub template_path: String,
}

/// One immediate child of the template root, as seen by a scan: the
/// directory's name, and its descriptor if one was present and parsed.
#[derive(Debug)]
pub struct ScanEntry {
    pub dir_name: String,
    pub descriptor: Option<BoardDescriptor>,
}

/// Mathematical image of a `BoardDescriptor`.
pub struct BoardDescView {
    pub id: Seq<char>,
    pub name: Seq<char>,
    pub mcu: Seq<char>,
    pub architecture: Seq<char>,
    pub ram_kb: u32,
    pub flash_kb: u32,
}

/// Mathematical image of a `BoardConfig`.
pub struct BoardView {
    pub id: Seq<char>,
    pub name: Seq<char>,
    pub mcu: Seq<char>,
    pub architecture: Seq<char>,
    pub ram_kb: u32,
    pub flash_kb: u32,
    pub template_path: Seq<char>,
}

/// Mathematical image of a `ScanEntry`.
pub struct ScanView {
    pub dir_name: Seq<char>,
    pub descriptor: Option<BoardDescView>,
}

impl View for BoardDescriptor {
    type V = BoardDescView;

    open spec fn view(&self) -> BoardDescView {
        BoardDescView {
            id: self.id@,
            name: self.name@,
            mcu: self.mcu@,
            architecture: self.architecture@,
            ram_kb: self.ram_kb,
            flash_kb: self.flash_kb,
        }
    }
}

impl View for BoardConfig {
    type V = BoardView;

    open spec fn view(&self) -> BoardView {
        BoardView {
            id: self.id@,
            name: self.name@,
            mcu: self.mcu@,
            architecture: self.architecture@,
            ram_kb: self.ram_kb,
            flash_kb: self.flash_kb,
            template_path: self.template_path@,
        }
    }
}

impl View for ScanEntry {
    type V = ScanView;

    open spec fn view(&self) -> ScanView {
        ScanView {
            dir_name: self.dir_name@,
            descriptor: match self.descriptor {
                Option::Some(ref d) => Option::Some(d@),
                Option::None => Option::None,
            },
        }
    }
}

impl Clone for BoardConfig {
    fn clone(&self) -> (r: Self)
        ensures
            r@ == self@,
    {
        BoardConfig {
            id: self.id.clone(),
            name: self.name.clone(),
            mcu: self.mcu.clone(),
            architecture: self.architecture.clone(),
            ram_kb: self.ram_kb,
            flash_kb: self.flash_kb,
            template_path: self.template_path.clone(),
        }
    }
}

/// The images of a sequence of catalog entries.
pub open spec fn board_views(s: Seq<BoardConfig>) -> Seq<BoardView> {
    s.map_values(|b: BoardConfig| b@)
}

/// The images of a sequence of scan entries.
pub open spec fn scan_views(s: Seq<ScanEntry>) -> Seq<ScanView> {
    s.map_values(|e: ScanEntry| e@)
}

/// The board a scanned directory with a valid descriptor contributes: the
/// descriptor's fields, plus the template root derived from the directory
/// name.
pub open spec fn board_of(dir_name: Seq<char>, d: BoardDescView) -> BoardView {
    BoardView {
        id: d.id,
        name: d.name,
        mcu: d.mcu,
        architecture: d.architecture,
        ram_kb: d.ram_kb,
        flash_kb: d.flash_kb,
        template_path: "templates/"@ + dir_name,
    }
}

/// Pairwise-distinct board ids.
pub open spec fn ids_distinct(c: Seq<BoardView>) -> bool {
    forall|i: int, j: int| 0 <= i < j < c.len() ==> (#[trigger] c[i].id) != (#[trigger] c[j].id)
}

/// The boards of `c` whose id is not `id`, in order.
pub open spec fn drop_id(c: Seq<BoardView>, id: Seq<char>) -> Seq<BoardView>
    decreases c.len(),
{
    if c.len() == 0 {
        Seq::<BoardView>::empty()
    } else {
        let init = drop_id(c.drop_last(), id);
        if c.last().id == id {
            init
        } else {
            init.push(c.last())
        }
    }
}

/// `drop_id` keeps exactly the boards of other ids, and keeps distinct ids
/// distinct.
pub proof fn lemma_drop_id_facts(c: Seq<BoardView>, id: Seq<char>)
    ensures
        forall|k: int| 0 <= k < drop_id(c, id).len() ==> (#[trigger] drop_id(c, id)[k].id)
            != id,
        forall|k: int|
            0 <= k < drop_id(c, id).len() ==> exists|m: int|
                0 <= m < c.len() && c[m] == #[trigger] drop_id(c, id)[k],
        ids_distinct(c) ==> ids_distinct(drop_id(c, id)),
    decreases c.len(),
{
    if c.len() > 0 {
        let t = c.drop_last();
        lemma_drop_id_facts(t, id);
        assert(forall|m: int| 0 <= m < t.len() ==> t[m] == c[m]);
        let kept = drop_id(c, id);
        assert forall|k: int| 0 <= k < kept.len() implies exists|m: int|
            0 <= m < c.len() && c[m] == #[trigger] kept[k] by {
            if c.last().id == id || k < kept.len() - 1 {
                let m = choose|m: int| 0 <= m < t.len() && t[m] == drop_id(t, id)[k];
                assert(c[m] == kept[k]);
            } else {
                assert(c[c.len() - 1] == kept[k]);
            }
        }
        if ids_distinct(c) {
            assert(ids_distinct(t));
            if c.last().id != id {
                assert forall|i: int, j: int| 0 <= i < j < kept.len() implies (
                #[trigger] kept[i].id) != (#[trigger] kept[j].id) by {
                    if j == kept.len() - 1 {
                        let m = choose|m: int| 0 <= m < t.len() && t[m] == drop_id(t, id)[i];
                        assert(c[m].id != c.last().id);
                    }
                }
            }
        }
    }
}

/// A board of some other id survives `drop_id` untouched: dropping an id
/// that no board carries changes nothing.
pub proof fn lemma_drop_id_absent(c: Seq<BoardView>, id: Seq<char>)
    requires
        forall|k: int| 0 <= k < c.len() ==> (#[trigger] c[k].id) != id,
    ensures
        drop_id(c, id) == c,
    decreases c.len(),
{
    if c.len() > 0 {
        let t = c.drop_last();
        assert(forall|k: int| 0 <= k < t.len() ==> t[k] == c[k]);
        lemma_drop_id_absent(t, id);
        assert(drop_id(c, id) =~= c);
    }
}

/// The catalog a scan yields: one board per entry with a descriptor, in scan
/// order, except that of several descriptors carrying the same id only the
/// last-scanned one survives; entries without a descriptor are skipped.
pub open spec fn catalog_of(s: Seq<ScanView>) -> Seq<BoardView>
    decreases s.len(),
{
    if s.len() == 0 {
        Seq::<BoardView>::empty()
    } else {
        let init = catalog_of(s.drop_last());
        match s.last().descriptor {
            Option::Some(d) => drop_id(init, d.id).push(board_of(s.last().dir_name, d)),
            Option::None => init,
        }
    }
}

/// The catalog's ids are unique at any scan instant.
pub proof fn lemma_catalog_ids_distinct(s: Seq<ScanView>)
    ensures
        ids_distinct(catalog_of(s)),
    decreases s.len(),
{
    if s.len() > 0 {
        let t = s.drop_last();
        lemma_catalog_ids_distinct(t);
        match s.last().descriptor {
            Option::Some(d) => {
                let init = catalog_of(t);
                lemma_drop_id_facts(init, d.id);
                let kept = drop_id(init, d.id);
                let cat = catalog_of(s);
                assert(cat == kept.push(board_of(s.last().dir_name, d)));
                assert forall|i: int, j: int| 0 <= i < j < cat.len() implies (
                #[trigger] cat[i].id) != (#[trigger] cat[j].id) by {
                    if j == cat.len() - 1 {
                        assert(cat[i] == kept[i]);
                        assert(kept[i].id != d.id);
                    } else {
                        assert(cat[i] == kept[i] && cat[j] == kept[j]);
                    }
                }
            },
            Option::None => {},
        }
    }
}

/// Whether some entry of the scan carries a descriptor with this id.
pub open spec fn has_descriptor_id(s: Seq<ScanView>, id: Seq<char>) -> bool {
    exists|i: int|
        0 <= i < s.len() && (#[trigger] s[i].descriptor) is Some && s[i].descriptor->Some_0.id
            == id
}

/// How many scanned directories carried a valid descriptor.
pub open spec fn descriptor_count(s: Seq<ScanView>) -> nat
    decreases s.len(),
{
    if s.len() == 0 {
        0
    } else {
        descriptor_count(s.drop_last()) + if s.last().descriptor is Some {
            1nat
        } else {
            0nat
        }
    }
}

/// When no two descriptors share an id, the catalog holds exactly one board
/// per scanned directory with a valid descriptor, and every board's id
/// comes from one of them. (A scan with two descriptors of equal id keeps
/// only the last, so the count there is smaller.)
pub proof fn lemma_catalog_one_per_descriptor(s: Seq<ScanView>)
    requires
        forall|i: int, j: int|
            #![trigger s[i].descriptor, s[j].descriptor]
            0 <= i < j < s.len() && s[i].descriptor is Some && s[j].descriptor is Some
                ==> s[i].descriptor->Some_0.id != s[j].descriptor->Some_0.id,
    ensures
        catalog_of(s).len() == descriptor_count(s),
        forall|k: int|
            0 <= k < catalog_of(s).len() ==> has_descriptor_id(
                s,
                #[trigger] catalog_of(s)[k].id,
            ),
    decreases s.len(),
{
    if s.len() > 0 {
        let t = s.drop_last();
        assert(forall|m: int| 0 <= m < t.len() ==> t[m] == s[m]);
        lemma_catalog_one_per_descriptor(t);
        let init = catalog_of(t);
        match s.last().descriptor {
            Option::Some(d) => {
                assert forall|k: int| 0 <= k < init.len() implies (#[trigger] init[k].id)
                    != d.id by {
                    assert(has_descriptor_id(t, init[k].id));
                    let w = choose|w: int|
                        0 <= w < t.len() && (#[trigger] t[w].descriptor) is Some
                            && t[w].descriptor->Some_0.id == init[k].id;
                    assert(s[w].descriptor->Some_0.id != s[s.len() - 1].descriptor->Some_0.id);
                }
                lemma_drop_id_absent(init, d.id);
                let cat = catalog_of(s);
                assert(cat == init.push(board_of(s.last().dir_name, d)));
                assert forall|k: int| 0 <= k < cat.len() implies has_descriptor_id(
                    s,
                    #[trigger] cat[k].id,
                ) by {
                    if k < cat.len() - 1 {
                        assert(has_descriptor_id(t, init[k].id));
                        let w = choose|w: int|
                            0 <= w < t.len() && (#[trigger] t[w].descriptor) is Some
                                && t[w].descriptor->Some_0.id == init[k].id;
                        assert(s[w].descriptor is Some && s[w].descriptor->Some_0.id
                            == cat[k].id);
                    } else {
                        assert(s[s.len() - 1].descriptor is Some && s[s.len()
                            - 1].descriptor->Some_0.id == cat[k].id);
                    }
                }
            },
            Option::None => {
                assert forall|k: int| 0 <= k < catalog_of(s).len() implies has_descriptor_id(
                    s,
                    #[trigger] catalog_of(s)[k].id,
                ) by {
                    assert(has_descriptor_id(t, init[k].id));
                    let w = choose|w: int|
                        0 <= w < t.len() && (#[trigger] t[w].descriptor) is Some
                            && t[w].descriptor->Some_0.id == init[k].id;
                    assert(s[w].descriptor is Some && s[w].descriptor->Some_0.id
                        == catalog_of(s)[k].id);
                }
            },
        }
    }
}

/// Assembles the board catalog from a scan of the template root's immediate
/// children: one `BoardConfig` per entry whose descriptor parsed, none for
/// the others, and of several descriptors declaring the same id only the
/// last-scanned one is kept, so ids are unique across the catalog.
pub fn get_available_boards(scan: &Vec<ScanEntry>) -> (boards: Vec<BoardConfig>)
    ensures
        board_views(boards@) == catalog_of(scan_views(scan@)),
        ids_distinct(board_views(boards@)),
{
    let mut boards: Vec<BoardConfig> = Vec::new();
    let mut i: usize = 0;
    while i < scan.len()
        invariant
            i <= scan.len(),
            board_views(boards@) == catalog_of(scan_views(scan@).take(i as int)),
        decreases scan.len() - i,
    {
        let ghost svs = scan_views(scan@);
        proof {
            assert(svs.take(i as int + 1).drop_last() =~= svs.take(i as int));
            assert(svs.take(i as int + 1).last() == svs[i as int]);
        }
        match scan[i].descriptor {
            Option::Some(ref d) => {
                let mut template_path = String::from_str("templates/");
                template_path.append(scan[i].dir_name.as_str());
                let board = BoardConfig {
                    id: d.id.clone(),
                    name: d.name.clone(),
                    mcu: d.mcu.clone(),
                    architecture: d.architecture.clone(),
                    ram_kb: d.ram_kb,
                    flash_kb: d.flash_kb,
                    template_path,
                };
                proof {
                    assert(board@ == board_of(svs[i as int].dir_name,
                            svs[i as int].descriptor->Some_0));
                }
                let ghost bviews = board_views(boards@);
                let mut kept: Vec<BoardConfig> = Vec::new();
                let mut k: usize = 0;
                proof {
                    assert(bviews.take(0) =~= Seq::<BoardView>::empty());
                    assert(board_views(kept@) =~= drop_id(bviews.take(0), d.id@));
                }
                while k < boards.len()
                    invariant
                        k <= boards.len(),
                        bviews == board_views(boards@),
                        board_views(kept@) == drop_id(bviews.take(k as int), d.id@),
                    decreases boards.len() - k,
                {
                    proof {
                        assert(bviews.take(k as int + 1).drop_last() =~= bviews.take(
                            k as int,
                        ));
                        assert(bviews.take(k as int + 1).last() == bviews[k as int]);
                    }
                    if !crate::text::str_eq(boards[k].id.as_str(), d.id.as_str()) {
                        let keep = boards[k].clone();
                        proof {
                            assert(board_views(kept@.push(keep)) =~= board_views(kept@).push(
                                bviews[k as int]));
                        }
                        kept.push(keep);
                    }
                    k = k + 1;
                }
                proof {
                    assert(bviews.take(boards@.len() as int) =~= bviews);
                }
                boards = kept;
                boards.push(board);
                proof {
                    assert(board_views(boards@) =~= drop_id(bviews, d.id@).push(board_of(
                        svs[i as int].dir_name,
                        svs[i as int].descriptor->Some_0,
                    )));
                    assert(board_views(boards@) =~= catalog_of(svs.take(i as int + 1)));
                }
            },
            Option::None => {
                proof {
                    assert(board_views(boards@) =~= catalog_of(svs.take(i as int + 1)));
                }
            },
        }
        i = i + 1;
    }
    proof {
        assert(scan_views(scan@).take(scan@.len() as int) =~= scan_views(scan@));
        lemma_catalog_ids_distinct(scan_views(scan@));
    }
    boards
}

/// The first board in `s` whose id is `id`, if any.
pub open spec fn find_board(s: Seq<BoardView>, id: Seq<char>) -> Option<BoardView>
    decreases s.len(),
{
    if s.len() == 0 {
        Option::<BoardView>::None
    } else if s[0].id == id {
        Option::Some(s[0])
    } else {
        find_board(s.drop_first(), id)
    }
}

/// `find_board` returns a board exactly when one with the given id exists,
/// and what it returns is such a board from the catalog.
pub proof fn lemma_find_board_characterizes(s: Seq<BoardView>, id: Seq<char>)
    ensures
        (find_board(s, id) is Some) <==> (exists|i: int|
            0 <= i < s.len() && #[trigger] s[i].id == id),
        find_board(s, id) matches Some(b) ==> b.id == id && exists|i: int|
            0 <= i < s.len() && #[trigger] s[i] == b,
    decreases s.len(),
{
    if s.len() == 0 {
    } else if s[0].id == id {
        assert(s[0].id == id);
    } else {
        lemma_find_board_characterizes(s.drop_first(), id);
        assert forall|i: int| 0 <= i < s.drop_first().len() implies s.drop_first()[i]
            == s[i + 1] by {}
        if find_board(s, id) is Some {
        } else {
            assert forall|i: int| 0 <= i < s.len() implies !(#[trigger] s[i].id == id) by {
                if i > 0 {
                    assert(s.drop_first()[i - 1] == s[i]);
                }
            }
        }
    }
}

/// On a catalog with unique ids — every assembled catalog — lookup agrees
/// with the catalog: whichever record carries the id is the one found.
pub proof fn lemma_find_board_agrees(s: Seq<BoardView>, id: Seq<char>, i: int)
    requires
        ids_distinct(s),
        0 <= i < s.len(),
        s[i].id == id,
    ensures
        find_board(s, id) == Option::Some(s[i]),
    decreases s.len(),
{
    if s[0].id == id {
        if i != 0 {
            assert(s[0].id != s[i].id);
        }
    } else {
        assert(i > 0);
        let t = s.drop_first();
        assert(forall|k: int| 0 <= k < t.len() ==> t[k] == s[k + 1]);
        assert forall|a: int, b: int| 0 <= a < b < t.len() implies (#[trigger] t[a].id) != (
        #[trigger] t[b].id) by {
            assert(t[a] == s[a + 1] && t[b] == s[b + 1]);
        }
        assert(t[i - 1] == s[i]);
        lemma_find_board_agrees(t, id, i - 1);
    }
}

/// Looks a board up by id in an assembled catalog; returns the first match,
/// or nothing when no board carries the id.
pub fn get_board_by_id(boards: &Vec<BoardConfig>, board_id: &str) -> (r: Option<BoardConfig>)
    ensures
        match r {
            Option::Some(b) => find_board(board_views(boards@), board_id@)
                == Option::Some(b@),
            Option::None => find_board(board_views(boards@), board_id@) is None,
        },
{
    let ghost bvs = board_views(boards@);
    let mut i: usize = 0;
    proof {
        assert(bvs.skip(0) =~= bvs);
    }
    while i < boards.len()
        invariant
            i <= boards.len(),
            bvs == board_views(boards@),
            find_board(bvs, board_id@) == find_board(bvs.skip(i as int), board_id@),
        decreases boards.len() - i,
    {
        proof {
            assert(bvs.skip(i as int)[0] == bvs[i as int]);
            assert(bvs.skip(i as int).drop_first() =~= bvs.skip(i as int + 1));
        }
        if crate::text::str_eq(boards[i].id.as_str(), board_id) {
            return Option::Some(boards[i].clone());
        }
        i = i + 1;
    }
    proof {
        assert(bvs.skip(boards@.len() as int).len() == 0);
    }
    Option::None
}

} // verus!
