//! Packages: the unit of distribution (a folder with `package.yaml`, the
//! characters, lore, scenarios and optionally a campaign). The player and the
//! package-wide flags are declared once and injected into every module.
use vstd::prelude::*;

use crate::campaign::Campaign;
use crate::spine::Scenario;
use crate::strmap::{StrMap, StrSet};
use crate::text::{trim, trim_spec};

verus! {

/// The protagonist as the package declares it once for every module.
#[derive(Debug)]
pub struct PlayerDef {
    pub name: String,
    /// Initial stats; the package's value wins over a module's.
    pub stats: StrMap<i64>,
    /// Initial skills, added to each module's.
    pub skills: StrSet,
    /// Initial items, added to each module's.
    pub items: StrSet,
    /// Initial attributes; the package's value wins.
    pub attributes: StrMap<String>,
    pub profile: String,
    /// The protagonist's icon asset id.
    pub icon: Option<String>,
}

/// Declarations that span the whole package.
#[derive(Debug)]
pub struct Globals {
    /// World flags: allowed in every module and carried across transitions.
    pub flags: StrSet,
}

/// `package.yaml`: the file that ties a package's world together.
#[derive(Debug)]
pub struct PackageManifest {
    pub title: String,
    pub description: String,
    pub author: String,
    pub version: String,
    /// A version range of the engine, kept as text and not checked.
    pub engine: String,
    /// `campaign.yaml` or `scenarios/xxx.yaml`, relative to the folder.
    pub entry: String,
    /// World lore for the narration.
    pub world: String,
    pub player: Option<PlayerDef>,
    pub globals: Option<Globals>,
}

/// A loaded single-scenario package: the manifest, the entry scenario
/// (injected and validated), and warnings for the author.
#[derive(Debug)]
pub struct LoadedPackage {
    pub manifest: PackageManifest,
    pub scenario: Scenario,
    pub warnings: Vec<String>,
}

/// A loaded campaign package: the manifest, the map, the starting module and
/// its scenario (injected and validated).
#[derive(Debug)]
pub struct LoadedCampaignPackage {
    pub manifest: PackageManifest,
    pub campaign: Campaign,
    pub start_module: String,
    pub scenario: Scenario,
}

/// The text holds `pat` somewhere.
pub open spec fn contains_text(s: Seq<char>, pat: Seq<char>) -> bool {
    exists|i: int| 0 <= i && i + pat.len() <= s.len() && #[trigger] s.subrange(i, i + pat.len()) == pat
}

/// Whether an entry is a campaign (its name holds `campaign`).
pub fn is_campaign_entry(entry: &str) -> (b: bool)
    ensures
        b == contains_text(entry@, "campaign"@),
{
    proof {
        reveal_strlit("campaign");
    }
    let n = entry.unicode_len();
    let pat = "campaign";
    if n < 8 {
        return false;
    }
    let mut i: usize = 0;
    let last = n - 8;
    while i <= last
        invariant
            n == entry@.len(),
            n >= 8,
            last == n - 8,
            pat@ == "campaign"@,
            pat@.len() == 8,
            forall|j: int| 0 <= j < i && j + 8 <= n ==> #[trigger] entry@.subrange(j, j + 8) != pat@,
        decreases n - i,
    {
        let piece = entry.substring_char(i, i + 8);
        if crate::strmap::str_eq(piece, pat) {
            return true;
        }
        if i == last {
            return false;
        }
        i = i + 1;
    }
    false
}

/// The world text a package gives a module: its own when not blank.
pub open spec fn injected_world(sc: Scenario, m: PackageManifest) -> Seq<char> {
    if trim_spec(m.world@).len() > 0 {
        m.world@
    } else {
        sc.world@
    }
}

/// Injects a package's declarations into one module: the world (when not
/// blank); the player's stats and attributes (the package wins), skills and
/// items (added); the protagonist's name and profile (when not blank) and
/// icon (when given); the global flags, into both the allowed and the
/// carried flags. Nothing else changes.
pub fn inject_package(scenario: &mut Scenario, manifest: &PackageManifest)
    ensures
        final(scenario).world@ == injected_world(*old(scenario), *manifest),
        match manifest.player {
            Some(p) => {
                &&& final(scenario).initial_stats@ == old(scenario).initial_stats@.union_prefer_right(p.stats@)
                &&& final(scenario).initial_skills@ == old(scenario).initial_skills@.union(p.skills@)
                &&& final(scenario).initial_inventory@ == old(scenario).initial_inventory@.union(p.items@)
                &&& final(scenario).initial_attributes@ == old(scenario).initial_attributes@.union_prefer_right(
                    p.attributes@,
                )
                &&& final(scenario).protagonist.name@ == if trim_spec(p.name@).len() > 0 {
                    p.name@
                } else {
                    old(scenario).protagonist.name@
                }
                &&& final(scenario).protagonist.profile@ == if trim_spec(p.profile@).len() > 0 {
                    p.profile@
                } else {
                    old(scenario).protagonist.profile@
                }
                &&& final(scenario).protagonist.icon == match p.icon {
                    Some(_) => p.icon,
                    None => old(scenario).protagonist.icon,
                }
            },
            None => {
                &&& final(scenario).initial_stats == old(scenario).initial_stats
                &&& final(scenario).initial_skills == old(scenario).initial_skills
                &&& final(scenario).initial_inventory == old(scenario).initial_inventory
                &&& final(scenario).initial_attributes == old(scenario).initial_attributes
                &&& final(scenario).protagonist == old(scenario).protagonist
            },
        },
        match manifest.globals {
            Some(g) => {
                &&& final(scenario).allowed_flags@ == old(scenario).allowed_flags@.union(g.flags@)
                &&& final(scenario).global_flags@ == old(scenario).global_flags@.union(g.flags@)
            },
            None => {
                &&& final(scenario).allowed_flags == old(scenario).allowed_flags
                &&& final(scenario).global_flags == old(scenario).global_flags
            },
        },
        *final(scenario) == (Scenario {
            world: final(scenario).world,
            protagonist: final(scenario).protagonist,
            initial_stats: final(scenario).initial_stats,
            initial_skills: final(scenario).initial_skills,
            initial_inventory: final(scenario).initial_inventory,
            initial_attributes: final(scenario).initial_attributes,
            allowed_flags: final(scenario).allowed_flags,
            global_flags: final(scenario).global_flags,
            ..*old(scenario)
        }),
{
    let w = trim(manifest.world.as_str());
    if w.unicode_len() > 0 {
        scenario.world = manifest.world.clone();
    }
    match &manifest.player {
        Some(p) => {
            scenario.initial_stats.merge_from(&p.stats);
            scenario.initial_skills.union_from(&p.skills);
            scenario.initial_inventory.union_from(&p.items);
            scenario.initial_attributes.merge_from(&p.attributes);
            let n = trim(p.name.as_str());
            if n.unicode_len() > 0 {
                scenario.protagonist.name = p.name.clone();
            }
            let pr = trim(p.profile.as_str());
            if pr.unicode_len() > 0 {
                scenario.protagonist.profile = p.profile.clone();
            }
            match &p.icon {
                Some(i) => {
                    scenario.protagonist.icon = Some(i.clone());
                },
                None => {},
            }
        },
        None => {},
    }
    match &manifest.globals {
        Some(g) => {
            scenario.allowed_flags.union_from(&g.flags);
            scenario.global_flags.union_from(&g.flags);
        },
        None => {},
    }
}

} // verus!
