//! Persisting user intent across restarts.
//!
//! Only things the *user* decided live here: which lamps are ganged and how, and
//! the scenes they saved. Discovered facts — addresses, firmware, whether a
//! light answered — are not configuration and are re-learned every run, so
//! nothing in this file can go stale in a way that matters.
//!
//! The daemon writes this file, and it is meant to stay legible enough to edit
//! by hand.

use vstd::prelude::*;
use vstd::string::*;

use crate::link::{Link, LinkMode, LinkView};
use crate::names::{in_order, lemma_listed, lemma_taken, NameMap};
use crate::scene::{gang_views, lamp_views, link_views, GangView, Scene, SceneGang, SceneLamp,
    SceneView};
use crate::strings::{same, text_of, texts};

verus! {

broadcast use vstd::string::group_string_axioms;

/// A gang as it is written down.
#[derive(Debug)]
pub struct StoredLink {
    /// `offset` (members keep their difference) or `mirror` (identical values).
    pub mode: String,
    /// The member whose values win when mirrored — the lamp named first when
    /// the gang was made. Optional so older files still load.
    pub reference: Option<String>,
    /// Member id → brightness offset from the gang's level.
    pub offsets: NameMap<i32>,
}

/// A scene's gang as it is written down.
#[derive(Debug)]
pub struct StoredGang {
    /// Members in order; the first is the reference.
    pub members: Vec<String>,
    pub mode: String,
    pub offsets: NameMap<i32>,
    pub level: i32,
    pub kelvin: u16,
    pub on: bool,
}

/// A scene as it is written down.
#[derive(Debug)]
pub struct StoredScene {
    pub name: String,
    pub gangs: Vec<StoredGang>,
    pub lamps: Vec<SceneLamp>,
}

/// On-disk shape. Kept deliberately close to the text a person would write.
#[derive(Debug)]
pub struct Config {
    pub links: Vec<StoredLink>,
    pub scenes: Vec<StoredScene>,
}

impl Default for Config {
    fn default() -> (r: Self)
        ensures
            r.links@.len() == 0,
            r.scenes@.len() == 0,
    {
        Config { links: Vec::new(), scenes: Vec::new() }
    }
}

/// The mode a word stands for. Offset is the resting state; a typo should not
/// cost the gang.
pub open spec fn mode_of(word: Seq<char>) -> LinkMode {
    if word == "mirror"@ {
        LinkMode::Mirror
    } else {
        LinkMode::Offset
    }
}

fn read_mode(word: &str) -> (r: LinkMode)
    ensures
        r == mode_of(word@),
{
    if same(word, "mirror") {
        LinkMode::Mirror
    } else {
        LinkMode::Offset
    }
}

impl StoredLink {
    /// The gang this entry describes.
    pub open spec fn link(self) -> LinkView {
        LinkView::restored(mode_of(self.mode@), text_of(self.reference), self.offsets@)
    }
}

/// The gangs that entries describe. Entries with fewer than two members are
/// dropped.
pub open spec fn links_in(stored: Seq<StoredLink>) -> Seq<LinkView>
    decreases stored.len(),
{
    if stored.len() == 0 {
        seq![]
    } else if stored.last().offsets@.dom().len() >= 2 {
        links_in(stored.drop_last()).push(stored.last().link())
    } else {
        links_in(stored.drop_last())
    }
}

/// Whether an entry is what is written down for a gang.
pub open spec fn writes(stored: StoredLink, link: LinkView) -> bool {
    &&& stored.mode@ == link.mode.word()
    &&& text_of(stored.reference) == Some(link.reference)
    &&& stored.offsets@ == link.offsets
}

impl StoredGang {
    /// The scene gang this entry describes.
    pub open spec fn gang(self) -> GangView {
        GangView {
            members: texts(self.members@),
            mode: mode_of(self.mode@),
            offsets: self.offsets@,
            level: self.level,
            kelvin: self.kelvin,
            on: self.on,
        }
    }
}

impl StoredScene {
    /// The scene this entry describes.
    pub open spec fn scene(self) -> SceneView {
        SceneView {
            gangs: self.gangs@.map_values(|gang: StoredGang| gang.gang()),
            lamps: lamp_views(self.lamps@),
        }
    }
}

/// The scenes that entries describe, by name; a later entry of the same name
/// replaces an earlier one.
pub open spec fn scenes_in(stored: Seq<StoredScene>) -> Map<Seq<char>, SceneView>
    decreases stored.len(),
{
    if stored.len() == 0 {
        Map::empty()
    } else {
        scenes_in(stored.drop_last()).insert(stored.last().name@, stored.last().scene())
    }
}

fn copy_strings(strings: &Vec<String>) -> (r: Vec<String>)
    ensures
        texts(r@) == texts(strings@),
{
    let mut out: Vec<String> = Vec::new();
    let mut i: usize = 0;
    while i < strings.len()
        invariant
            i <= strings@.len(),
            out@.len() == i,
            forall|j: int| 0 <= j < i ==> (#[trigger] out@[j])@ == strings@[j]@,
        decreases strings@.len() - i,
    {
        out.push(strings[i].clone());
        i += 1;
    }
    assert(texts(out@) =~= texts(strings@));
    out
}

fn copy_lamps(lamps: &Vec<SceneLamp>) -> (r: Vec<SceneLamp>)
    ensures
        lamp_views(r@) == lamp_views(lamps@),
{
    let mut out: Vec<SceneLamp> = Vec::new();
    let mut i: usize = 0;
    while i < lamps.len()
        invariant
            i <= lamps@.len(),
            out@.len() == i,
            forall|j: int| 0 <= j < i ==> (#[trigger] out@[j])@ == lamps@[j]@,
        decreases lamps@.len() - i,
    {
        out.push(lamps[i].clone());
        i += 1;
    }
    assert(lamp_views(out@) =~= lamp_views(lamps@));
    out
}

impl Config {
    /// Links as the daemon understands them.
    ///
    /// Entries with fewer than two members are dropped — a gang of one is not a
    /// gang, and a hand-edited file is the likely source of one.
    pub fn links(&self) -> (r: Vec<Link>)
        ensures
            link_views(r@) == links_in(self.links@),
            forall|i: int| 0 <= i < r@.len() ==> (#[trigger] r@[i])@.wf(),
    {
        let mut out: Vec<Link> = Vec::new();
        let mut i: usize = 0;
        assert(self.links@.take(0) =~= Seq::empty());
        assert(link_views(out@) =~= Seq::empty());
        while i < self.links.len()
            invariant
                i <= self.links@.len(),
                link_views(out@) == links_in(self.links@.take(i as int)),
                forall|j: int| 0 <= j < out@.len() ==> (#[trigger] out@[j])@.wf(),
            decreases self.links@.len() - i,
        {
            proof {
                lemma_taken(self.links@, i as int);
                assert(self.links@.take(i + 1).drop_last() =~= self.links@.take(i as int));
            }
            let stored = &self.links[i];
            if stored.offsets.len() >= 2 {
                let reference = match &stored.reference {
                    Some(name) => Some(name.clone()),
                    None => None,
                };
                let link = Link::from_parts(
                    read_mode(stored.mode.as_str()),
                    reference,
                    stored.offsets.clone(),
                );
                let ghost before = out@;
                let ghost made = link@;
                out.push(link);
                assert(link_views(out@) =~= link_views(before).push(made));
            }
            i += 1;
        }
        assert(self.links@.take(i as int) =~= self.links@);
        out
    }

    /// Replace the stored links.
    pub fn set_links(&mut self, links: &[Link])
        ensures
            final(self).links@.len() == links@.len(),
            forall|i: int|
                0 <= i < links@.len() ==> writes(#[trigger] final(self).links@[i], links@[i]@),
            final(self).scenes == old(self).scenes,
    {
        let mut out: Vec<StoredLink> = Vec::new();
        let mut i: usize = 0;
        while i < links.len()
            invariant
                i <= links@.len(),
                out@.len() == i,
                forall|j: int| 0 <= j < i ==> writes(#[trigger] out@[j], links@[j]@),
            decreases links@.len() - i,
        {
            let link = &links[i];
            let pairs = link.offsets();
            let offsets = collect_offsets(&pairs, Ghost(link@.offsets));
            out.push(
                StoredLink {
                    mode: link.mode().as_str().to_owned(),
                    reference: Some(link.reference().to_owned()),
                    offsets,
                },
            );
            i += 1;
        }
        self.links = out;
    }

    /// Scenes as the daemon understands them.
    pub fn scenes(&self) -> (r: NameMap<Scene>)
        ensures
            r@ == scenes_in(self.scenes@),
    {
        let mut out: NameMap<Scene> = NameMap::new();
        let mut i: usize = 0;
        assert(self.scenes@.take(0) =~= Seq::empty());
        while i < self.scenes.len()
            invariant
                i <= self.scenes@.len(),
                out@ == scenes_in(self.scenes@.take(i as int)),
            decreases self.scenes@.len() - i,
        {
            proof {
                lemma_taken(self.scenes@, i as int);
                assert(self.scenes@.take(i + 1).drop_last() =~= self.scenes@.take(i as int));
            }
            let _ = out.insert(self.scenes[i].name.clone(), self.scenes[i].to_scene());
            i += 1;
        }
        assert(self.scenes@.take(i as int) =~= self.scenes@);
        out
    }

    /// Replace the stored scenes.
    pub fn set_scenes(&mut self, scenes: &NameMap<Scene>)
        ensures
            final(self).scenes@.len() == in_order(scenes@.dom()).len(),
            forall|i: int|
                0 <= i < final(self).scenes@.len() ==> {
                    &&& (#[trigger] final(self).scenes@[i]).name@ == in_order(scenes@.dom())[i]
                    &&& final(self).scenes@[i].scene() == scenes@[in_order(scenes@.dom())[i]]
                },
            scenes@.dom().finite(),
            final(self).links == old(self).links,
    {
        let total: usize = scenes.len();
        let mut out: Vec<StoredScene> = Vec::new();
        let mut i: usize = 0;
        while i < total
            invariant
                i <= total,
                total == scenes@.dom().len(),
                total == in_order(scenes@.dom()).len(),
                out@.len() == i,
                forall|j: int|
                    0 <= j < i ==> {
                        &&& (#[trigger] out@[j]).name@ == in_order(scenes@.dom())[j]
                        &&& out@[j].scene() == scenes@[in_order(scenes@.dom())[j]]
                    },
            decreases total - i,
        {
            out.push(StoredScene::of(scenes.name_at(i).as_str(), scenes.value_at(i)));
            i += 1;
        }
        self.scenes = out;
    }
}

/// Turn a listing of offsets back into a map.
fn collect_offsets(pairs: &Vec<(String, i32)>, Ghost(offsets): Ghost<Map<Seq<char>, i32>>) -> (r:
    NameMap<i32>)
    requires
        offsets.dom().finite(),
        pairs@.len() == in_order(offsets.dom()).len(),
        forall|i: int|
            0 <= i < pairs@.len() ==> (#[trigger] pairs@[i])@ == (
                in_order(offsets.dom())[i],
                offsets[in_order(offsets.dom())[i]],
            ),
    ensures
        r@ == offsets,
{
    let ghost order = in_order(offsets.dom());
    proof {
        lemma_listed(offsets.dom());
    }
    let mut out: NameMap<i32> = NameMap::new();
    let mut i: usize = 0;
    while i < pairs.len()
        invariant
            i <= pairs@.len(),
            order == in_order(offsets.dom()),
            pairs@.len() == order.len(),
            forall|j: int|
                0 <= j < pairs@.len() ==> (#[trigger] pairs@[j])@ == (order[j], offsets[order[j]]),
            forall|id: Seq<char>| #[trigger]
                out@.contains_key(id) <==> order.take(i as int).contains(id),
            forall|id: Seq<char>| #[trigger] out@.contains_key(id) ==> out@[id] == offsets[id],
        decreases pairs@.len() - i,
    {
        proof {
            lemma_taken(order, i as int);
            assert(pairs@[i as int]@ == (order[i as int], offsets[order[i as int]]));
        }
        let _ = out.insert(pairs[i].0.clone(), pairs[i].1);
        i += 1;
    }
    proof {
        assert(order.take(i as int) =~= order);
        assert(out@ =~= offsets);
    }
    out
}

impl StoredScene {
    /// Write a scene down under a name.
    fn of(name: &str, scene: &Scene) -> (r: Self)
        ensures
            r.name@ == name@,
            r.scene() == scene@,
    {
        let mut gangs: Vec<StoredGang> = Vec::new();
        let mut i: usize = 0;
        while i < scene.gangs.len()
            invariant
                i <= scene.gangs@.len(),
                gangs@.len() == i,
                forall|j: int| 0 <= j < i ==> (#[trigger] gangs@[j]).gang() == scene.gangs@[j]@,
            decreases scene.gangs@.len() - i,
        {
            let gang = &scene.gangs[i];
            let stored = StoredGang {
                members: copy_strings(&gang.members),
                mode: gang.mode.as_str().to_owned(),
                offsets: gang.offsets.clone(),
                level: gang.level,
                kelvin: gang.kelvin,
                on: gang.on,
            };
            proof {
                lemma_mode_word(gang.mode);
                assert(stored.gang() =~= gang@);
            }
            gangs.push(stored);
            i += 1;
        }
        let r = StoredScene { name: name.to_owned(), gangs, lamps: copy_lamps(&scene.lamps) };
        assert(r.scene().gangs =~= scene@.gangs);
        r
    }

    /// The scene this entry describes.
    fn to_scene(&self) -> (r: Scene)
        ensures
            r@ == self.scene(),
    {
        let mut gangs: Vec<SceneGang> = Vec::new();
        let mut i: usize = 0;
        while i < self.gangs.len()
            invariant
                i <= self.gangs@.len(),
                gangs@.len() == i,
                forall|j: int| 0 <= j < i ==> (#[trigger] gangs@[j])@ == self.gangs@[j].gang(),
            decreases self.gangs@.len() - i,
        {
            let stored = &self.gangs[i];
            let gang = SceneGang {
                members: copy_strings(&stored.members),
                mode: read_mode(stored.mode.as_str()),
                offsets: stored.offsets.clone(),
                level: stored.level,
                kelvin: stored.kelvin,
                on: stored.on,
            };
            assert(gang@ =~= stored.gang());
            gangs.push(gang);
            i += 1;
        }
        let r = Scene { gangs, lamps: copy_lamps(&self.lamps) };
        assert(gang_views(r.gangs@) =~= self.scene().gangs);
        r
    }
}

/// Where the configuration directory is looked for.
#[derive(Clone, Copy, Debug, PartialEq, Eq, Structural)]
pub enum ConfigHome {
    /// `$XDG_CONFIG_HOME`.
    Xdg,
    /// `~/.config`.
    Home,
}

/// Where the file belongs, given which of the two places there are.
pub open spec fn home_for(xdg_is_absolute: bool, has_home: bool) -> Option<ConfigHome> {
    if xdg_is_absolute {
        Some(ConfigHome::Xdg)
    } else if has_home {
        Some(ConfigHome::Home)
    } else {
        None
    }
}

/// Pick `$XDG_CONFIG_HOME` when it names an absolute path, falling back to
/// `~/.config` when there is a home directory at all.
pub fn config_home(xdg_is_absolute: bool, has_home: bool) -> (r: Option<ConfigHome>)
    ensures
        r == home_for(xdg_is_absolute, has_home),
{
    if xdg_is_absolute {
        Some(ConfigHome::Xdg)
    } else if has_home {
        Some(ConfigHome::Home)
    } else {
        None
    }
}

/// The comment that opens the written file.
pub open spec fn file_header() -> Seq<char> {
    "# gaffer — written by the daemon, safe to edit by hand.\n# Gangs: which lamps move together, and the brightness difference\n# each keeps from the gang's level.\n\n"@
}

/// The text of the file whose entries serialise to `body`.
pub fn file_text(body: &str) -> (r: String)
    ensures
        r@ == file_header() + body@,
{
    let mut out = String::new();
    out.append(
        "# gaffer — written by the daemon, safe to edit by hand.\n# Gangs: which lamps move together, and the brightness difference\n# each keeps from the gang's level.\n\n",
    );
    out.append(body);
    assert(out@ =~= file_header() + body@);
    out
}

/// A mode's name reads back as the mode.
proof fn lemma_mode_word(mode: LinkMode)
    ensures
        mode_of(mode.word()) == mode,
{
    reveal_strlit("mirror");
    reveal_strlit("offset");
    let (a, b) = ("mirror"@, "offset"@);
    assert(a[0] == 'm' && b[0] == 'o');
}

/// The gangs worth keeping: those of two or more lamps.
pub open spec fn lasting(links: Seq<LinkView>) -> Seq<LinkView> {
    links.filter(|link: LinkView| link.offsets.dom().len() >= 2)
}

/// Gangs survive being written down and read back, each exactly as it was, but
/// for those of fewer than two lamps, which are left out.
pub proof fn law_gangs_survive_a_round_trip(stored: Seq<StoredLink>, links: Seq<LinkView>)
    requires
        stored.len() == links.len(),
        forall|i: int| 0 <= i < links.len() ==> writes(#[trigger] stored[i], links[i]),
        forall|i: int| 0 <= i < links.len() ==> (#[trigger] links[i]).wf(),
    ensures
        links_in(stored) == lasting(links),
        (forall|i: int| 0 <= i < links.len() ==> (#[trigger] links[i]).offsets.dom().len() >= 2)
            ==> links_in(stored) == links,
    decreases stored.len(),
{
    reveal(Seq::filter);
    if stored.len() > 0 {
        let last = stored.len() - 1;
        assert(writes(stored[last], links[last]));
        assert(links[last].wf());
        lemma_mode_word(links[last].mode);
        assert forall|i: int| 0 <= i < links.drop_last().len() implies writes(
            #[trigger] stored.drop_last()[i],
            links.drop_last()[i],
        ) by {
            assert(writes(stored[i], links[i]));
        }
        assert forall|i: int| 0 <= i < links.drop_last().len() implies (
        #[trigger] links.drop_last()[i]).wf() by {
            assert(links[i].wf());
        }
        law_gangs_survive_a_round_trip(stored.drop_last(), links.drop_last());
        if links[last].offsets.dom().len() >= 2 {
            assert(!(links[last].offsets.dom() =~= Set::empty()));
            assert(stored[last].link() =~= links[last]);
        }
        assert(links =~= links.drop_last().push(links.last()));
        if forall|i: int| 0 <= i < links.len() ==> (#[trigger] links[i]).offsets.dom().len() >= 2 {
            assert forall|i: int| 0 <= i < links.drop_last().len() implies (
            #[trigger] links.drop_last()[i]).offsets.dom().len() >= 2 by {
                assert(links.drop_last()[i] == links[i]);
            }
            assert(links[last].offsets.dom().len() >= 2);
        }
    } else {
        assert(links =~= seq![]);
    }
}

/// A gang of one is discarded, whatever else the file holds.
pub proof fn law_a_stored_gang_has_two_members(stored: Seq<StoredLink>, i: int)
    requires
        0 <= i < links_in(stored).len(),
    ensures
        links_in(stored)[i].offsets.dom().len() >= 2,
    decreases stored.len(),
{
    if stored.len() > 0 && i < links_in(stored.drop_last()).len() {
        law_a_stored_gang_has_two_members(stored.drop_last(), i);
    }
}

/// Scenes survive being written down and read back, each exactly as it was.
pub proof fn law_scenes_survive_a_round_trip(
    stored: Seq<StoredScene>,
    scenes: Map<Seq<char>, SceneView>,
)
    requires
        scenes.dom().finite(),
        stored.len() == in_order(scenes.dom()).len(),
        forall|i: int|
            0 <= i < stored.len() ==> {
                &&& (#[trigger] stored[i]).name@ == in_order(scenes.dom())[i]
                &&& stored[i].scene() == scenes[in_order(scenes.dom())[i]]
            },
    ensures
        scenes_in(stored) == scenes,
{
    let order = in_order(scenes.dom());
    lemma_listed(scenes.dom());
    lemma_scenes_in(stored, scenes, order, stored.len() as int);
    assert(stored.take(stored.len() as int) =~= stored);
    assert(order.take(stored.len() as int) =~= order);
    assert(scenes_in(stored) =~= scenes);
}

proof fn lemma_scenes_in(
    stored: Seq<StoredScene>,
    scenes: Map<Seq<char>, SceneView>,
    order: Seq<Seq<char>>,
    n: int,
)
    requires
        0 <= n <= stored.len(),
        stored.len() == order.len(),
        forall|i: int|
            0 <= i < stored.len() ==> {
                &&& (#[trigger] stored[i]).name@ == order[i]
                &&& stored[i].scene() == scenes[order[i]]
            },
    ensures
        forall|name: Seq<char>| #[trigger]
            scenes_in(stored.take(n)).contains_key(name) <==> order.take(n).contains(name),
        forall|name: Seq<char>| #[trigger]
            scenes_in(stored.take(n)).contains_key(name) ==> scenes_in(stored.take(n))[name]
                == scenes[name],
    decreases n,
{
    if n > 0 {
        lemma_scenes_in(stored, scenes, order, n - 1);
        lemma_taken(order, n - 1);
        let before = scenes_in(stored.take(n - 1));
        assert(stored.take(n).drop_last() =~= stored.take(n - 1));
        assert(stored.take(n).last() == stored[n - 1]);
        assert forall|name: Seq<char>| #[trigger]
            scenes_in(stored.take(n)).contains_key(name) <==> order.take(n).contains(name) by {
            assert(before.contains_key(name) <==> order.take(n - 1).contains(name));
        }
        assert forall|name: Seq<char>| #[trigger]
            scenes_in(stored.take(n)).contains_key(name) implies scenes_in(stored.take(n))[name]
            == scenes[name] by {
            assert(before.contains_key(name) ==> before[name] == scenes[name]);
        }
    }
}

/// A stored mode is read by its name, and any other word as offset.
pub proof fn law_an_unknown_mode_reads_as_offset(mode: LinkMode, word: Seq<char>)
    ensures
        mode_of(mode.word()) == mode,
        mode_of("mirror"@) == LinkMode::Mirror,
        word != "mirror"@ ==> mode_of(word) == LinkMode::Offset,
{
    lemma_mode_word(mode);
}

/// A stored gang holds the differences that stand in the file, is led by the lamp
/// named there if that is a member, and tracks as the file says.
pub proof fn law_a_stored_gang_is_what_the_file_says(stored: StoredLink)
    ensures
        stored.link().offsets == stored.offsets@,
        stored.link().mode == mode_of(stored.mode@),
        stored.reference matches Some(name) && stored.offsets@.contains_key(name@)
            ==> stored.link().reference == stored.reference->0@,
{
}

/// A stored scene holds its gangs and lamps as they stand in the file, and of two
/// scenes of one name the later counts.
pub proof fn law_a_stored_scene_is_what_the_file_says(
    stored: Seq<StoredScene>,
    one: StoredScene,
    i: int,
    other: Seq<char>,
)
    ensures
        scenes_in(stored.push(one)).contains_key(one.name@),
        scenes_in(stored.push(one))[one.name@] == one.scene(),
        other != one.name@ ==> (scenes_in(stored.push(one)).contains_key(other) <==> scenes_in(
            stored,
        ).contains_key(other)),
        other != one.name@ && scenes_in(stored).contains_key(other) ==> scenes_in(
            stored.push(one),
        )[other] == scenes_in(stored)[other],
        one.scene().gangs.len() == one.gangs@.len(),
        0 <= i < one.gangs@.len() ==> {
            let gang = one.scene().gangs[i];
            &&& gang.members == texts(one.gangs@[i].members@)
            &&& gang.mode == mode_of(one.gangs@[i].mode@)
            &&& gang.offsets == one.gangs@[i].offsets@
            &&& gang.level == one.gangs@[i].level
            &&& gang.kelvin == one.gangs@[i].kelvin
            &&& gang.on == one.gangs@[i].on
        },
        one.scene().lamps == lamp_views(one.lamps@),
{
    assert(stored.push(one).drop_last() =~= stored);
}

/// The file is kept under the directory that was named for it, under the home
/// directory only where none was, and nowhere only where there is neither.
pub proof fn law_the_named_directory_comes_first(xdg_is_absolute: bool, has_home: bool)
    ensures
        home_for(xdg_is_absolute, has_home) == Some(ConfigHome::Xdg) <==> xdg_is_absolute,
        home_for(xdg_is_absolute, has_home) == Some(ConfigHome::Home) <==> has_home
            && !xdg_is_absolute,
        home_for(xdg_is_absolute, has_home) is None <==> !has_home && !xdg_is_absolute,
{
}

} // verus!
