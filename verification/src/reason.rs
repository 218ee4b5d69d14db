//! Rejection reasons as structured data, rendered per language by the presentation.
//!
//! The engine answers *why* it refused with a code; the wording in Japanese or
//! English is a presentation concern kept here, away from the rules.
use vstd::prelude::*;

verus! {

/// A rendering language.
#[derive(Clone, Copy, PartialEq, Eq, Structural, Debug)]
pub enum Lang {
    Ja,
    En,
}

/// A structured reason for refusing a delta.
#[derive(Debug)]
pub enum RejectReason {
    /// The current location does not exist in the scenario (a broken state).
    CurrentLocationMissing { location: String },
    ItemAlreadyHeld { item: String },
    ItemNotHere { item: String },
    ItemGateUnmet { item: String },
    /// The item is fixed in place: it can be used where it is, never taken.
    ItemFixed { item: String },
    ItemNotHeld { item: String },
    FlagNotAllowed { key: String },
    FlagGateUnmet { key: String },
    NoExit { to: String },
    MoveGateUnmet { to: String },
    DiceSidesInvalid,
    UnknownStat { entity: String, key: String },
    DivideByZero { key: String },
    UnknownEntity { entity: String },
    UnknownChallenge { challenge: String },
    ChallengeLocked { challenge: String },
    SkillGrantNotAllowed { entity: String, skill: String },
    AttributeSetNotAllowed { entity: String, key: String },
    TurnRecordNotAllowed { entity: String, key: String },
    PresenceSetNotAllowed { entity: String },
    TabooViolated { entity: String },
}

/// The meaning of a reason: the same shape over character sequences.
pub enum ReasonModel {
    CurrentLocationMissing { location: Seq<char> },
    ItemAlreadyHeld { item: Seq<char> },
    ItemNotHere { item: Seq<char> },
    ItemGateUnmet { item: Seq<char> },
    ItemFixed { item: Seq<char> },
    ItemNotHeld { item: Seq<char> },
    FlagNotAllowed { key: Seq<char> },
    FlagGateUnmet { key: Seq<char> },
    NoExit { to: Seq<char> },
    MoveGateUnmet { to: Seq<char> },
    DiceSidesInvalid,
    UnknownStat { entity: Seq<char>, key: Seq<char> },
    DivideByZero { key: Seq<char> },
    UnknownEntity { entity: Seq<char> },
    UnknownChallenge { challenge: Seq<char> },
    ChallengeLocked { challenge: Seq<char> },
    SkillGrantNotAllowed { entity: Seq<char>, skill: Seq<char> },
    AttributeSetNotAllowed { entity: Seq<char>, key: Seq<char> },
    TurnRecordNotAllowed { entity: Seq<char>, key: Seq<char> },
    PresenceSetNotAllowed { entity: Seq<char> },
    TabooViolated { entity: Seq<char> },
}

impl View for RejectReason {
    type V = ReasonModel;

    open spec fn view(&self) -> ReasonModel {
        match self {
            RejectReason::CurrentLocationMissing { location } => ReasonModel::CurrentLocationMissing {
                location: location@,
            },
            RejectReason::ItemAlreadyHeld { item } => ReasonModel::ItemAlreadyHeld { item: item@ },
            RejectReason::ItemNotHere { item } => ReasonModel::ItemNotHere { item: item@ },
            RejectReason::ItemGateUnmet { item } => ReasonModel::ItemGateUnmet { item: item@ },
            RejectReason::ItemFixed { item } => ReasonModel::ItemFixed { item: item@ },
            RejectReason::ItemNotHeld { item } => ReasonModel::ItemNotHeld { item: item@ },
            RejectReason::FlagNotAllowed { key } => ReasonModel::FlagNotAllowed { key: key@ },
            RejectReason::FlagGateUnmet { key } => ReasonModel::FlagGateUnmet { key: key@ },
            RejectReason::NoExit { to } => ReasonModel::NoExit { to: to@ },
            RejectReason::MoveGateUnmet { to } => ReasonModel::MoveGateUnmet { to: to@ },
            RejectReason::DiceSidesInvalid => ReasonModel::DiceSidesInvalid,
            RejectReason::UnknownStat { entity, key } => ReasonModel::UnknownStat {
                entity: entity@,
                key: key@,
            },
            RejectReason::DivideByZero { key } => ReasonModel::DivideByZero { key: key@ },
            RejectReason::UnknownEntity { entity } => ReasonModel::UnknownEntity { entity: entity@ },
            RejectReason::UnknownChallenge { challenge } => ReasonModel::UnknownChallenge {
                challenge: challenge@,
            },
            RejectReason::ChallengeLocked { challenge } => ReasonModel::ChallengeLocked {
                challenge: challenge@,
            },
            RejectReason::SkillGrantNotAllowed { entity, skill } => ReasonModel::SkillGrantNotAllowed {
                entity: entity@,
                skill: skill@,
            },
            RejectReason::AttributeSetNotAllowed { entity, key } => ReasonModel::AttributeSetNotAllowed {
                entity: entity@,
                key: key@,
            },
            RejectReason::TurnRecordNotAllowed { entity, key } => ReasonModel::TurnRecordNotAllowed {
                entity: entity@,
                key: key@,
            },
            RejectReason::PresenceSetNotAllowed { entity } => ReasonModel::PresenceSetNotAllowed {
                entity: entity@,
            },
            RejectReason::TabooViolated { entity } => ReasonModel::TabooViolated { entity: entity@ },
        }
    }
}

impl RejectReason {
    pub fn dup(&self) -> (r: RejectReason)
        ensures
            r@ == self@,
    {
        match self {
            RejectReason::CurrentLocationMissing { location } => RejectReason::CurrentLocationMissing {
                location: location.clone(),
            },
            RejectReason::ItemAlreadyHeld { item } => RejectReason::ItemAlreadyHeld { item: item.clone() },
            RejectReason::ItemNotHere { item } => RejectReason::ItemNotHere { item: item.clone() },
            RejectReason::ItemGateUnmet { item } => RejectReason::ItemGateUnmet { item: item.clone() },
            RejectReason::ItemFixed { item } => RejectReason::ItemFixed { item: item.clone() },
            RejectReason::ItemNotHeld { item } => RejectReason::ItemNotHeld { item: item.clone() },
            RejectReason::FlagNotAllowed { key } => RejectReason::FlagNotAllowed { key: key.clone() },
            RejectReason::FlagGateUnmet { key } => RejectReason::FlagGateUnmet { key: key.clone() },
            RejectReason::NoExit { to } => RejectReason::NoExit { to: to.clone() },
            RejectReason::MoveGateUnmet { to } => RejectReason::MoveGateUnmet { to: to.clone() },
            RejectReason::DiceSidesInvalid => RejectReason::DiceSidesInvalid,
            RejectReason::UnknownStat { entity, key } => RejectReason::UnknownStat {
                entity: entity.clone(),
                key: key.clone(),
            },
            RejectReason::DivideByZero { key } => RejectReason::DivideByZero { key: key.clone() },
            RejectReason::UnknownEntity { entity } => RejectReason::UnknownEntity { entity: entity.clone() },
            RejectReason::UnknownChallenge { challenge } => RejectReason::UnknownChallenge {
                challenge: challenge.clone(),
            },
            RejectReason::ChallengeLocked { challenge } => RejectReason::ChallengeLocked {
                challenge: challenge.clone(),
            },
            RejectReason::SkillGrantNotAllowed { entity, skill } => RejectReason::SkillGrantNotAllowed {
                entity: entity.clone(),
                skill: skill.clone(),
            },
            RejectReason::AttributeSetNotAllowed { entity, key } => RejectReason::AttributeSetNotAllowed {
                entity: entity.clone(),
                key: key.clone(),
            },
            RejectReason::TurnRecordNotAllowed { entity, key } => RejectReason::TurnRecordNotAllowed {
                entity: entity.clone(),
                key: key.clone(),
            },
            RejectReason::PresenceSetNotAllowed { entity } => RejectReason::PresenceSetNotAllowed {
                entity: entity.clone(),
            },
            RejectReason::TabooViolated { entity } => RejectReason::TabooViolated { entity: entity.clone() },
        }
    }
}

/// Copies a list of reasons.
pub fn dup_reasons(v: &Vec<RejectReason>) -> (r: Vec<RejectReason>)
    ensures
        reason_views(r@) == reason_views(v@),
{
    let mut out: Vec<RejectReason> = Vec::new();
    let mut i: usize = 0;
    while i < v.len()
        invariant
            i <= v@.len(),
            reason_views(out@) =~= reason_views(v@).take(i as int),
        decreases v@.len() - i,
    {
        let ghost before = reason_views(out@);
        out.push(v[i].dup());
        assert(reason_views(out@) =~= before.push(v@[i as int]@));
        i = i + 1;
    }
    assert(reason_views(v@).take(i as int) =~= reason_views(v@));
    out
}

/// The models of a sequence of reasons.
pub open spec fn reason_views(s: Seq<RejectReason>) -> Seq<ReasonModel> {
    s.map_values(|r: RejectReason| r@)
}

/// `a` + `x` + `b`.
pub open spec fn around(a: Seq<char>, x: Seq<char>, b: Seq<char>) -> Seq<char> {
    a + x + b
}

/// The Japanese wording of a reason.
pub open spec fn ja_spec(r: ReasonModel) -> Seq<char> {
    match r {
        ReasonModel::CurrentLocationMissing { location } => around("現在地 '"@, location, "' がシナリオに存在しない"@),
        ReasonModel::ItemAlreadyHeld { item } => around("'"@, item, "' は既に所持している"@),
        ReasonModel::ItemNotHere { item } => around("'"@, item, "' はこの場所には存在しない"@),
        ReasonModel::ItemGateUnmet { item } => around("'"@, item, "' はまだ取得できない (前提条件が未達)"@),
        ReasonModel::ItemFixed { item } => around("'"@, item, "' は備え付けなので持ち出せない (取らずにその場で使える)"@),
        ReasonModel::ItemNotHeld { item } => around("'"@, item, "' を所持していないので手放せない"@),
        ReasonModel::FlagNotAllowed { key } => around("フラグ '"@, key, "' は許可されていない"@),
        ReasonModel::FlagGateUnmet { key } => around("フラグ '"@, key, "' を立てる前提条件が未達"@),
        ReasonModel::NoExit { to } => around("'"@, to, "' への出口は存在しない"@),
        ReasonModel::MoveGateUnmet { to } => around("'"@, to, "' への移動条件が未達"@),
        ReasonModel::DiceSidesInvalid => "ダイスの面数は1以上でなければならない"@,
        ReasonModel::UnknownStat { entity, key } => around("'"@, entity, "' の stat '"@) + key
            + "' はこのシナリオに宣言されていない"@,
        ReasonModel::DivideByZero { key } => around("stat '"@, key, "' をゼロで割ることはできない"@),
        ReasonModel::UnknownEntity { entity } => around("'"@, entity, "' はこのシナリオに存在しない"@),
        ReasonModel::UnknownChallenge { challenge } => around("挑戦 '"@, challenge, "' は宣言されていない"@),
        ReasonModel::ChallengeLocked { challenge } => around("挑戦 '"@, challenge, "' にはまだ挑めない (前提条件が未達)"@),
        ReasonModel::SkillGrantNotAllowed { entity, skill } => around("'"@, entity, "' に能力 '"@)
            + skill + "' を付与できるのは筋書きだけ"@,
        ReasonModel::AttributeSetNotAllowed { entity, key } => around("'"@, entity, "' の属性 '"@)
            + key + "' を書き換えられるのは筋書きだけ"@,
        ReasonModel::TurnRecordNotAllowed { entity, key } => around("'"@, entity, "' の stat '"@)
            + key + "' にターンを刻めるのは筋書きだけ"@,
        ReasonModel::PresenceSetNotAllowed { entity } => around("'"@, entity, "' の登場/退場を決められるのは筋書きだけ"@),
        ReasonModel::TabooViolated { entity } => around("'"@, entity, "' の禁忌に触れる"@),
    }
}

/// The English wording of a reason.
pub open spec fn en_spec(r: ReasonModel) -> Seq<char> {
    match r {
        ReasonModel::CurrentLocationMissing { location } => around("current location '"@, location, "' does not exist in the scenario"@),
        ReasonModel::ItemAlreadyHeld { item } => around("'"@, item, "' is already in your inventory"@),
        ReasonModel::ItemNotHere { item } => around("'"@, item, "' is not present in this location"@),
        ReasonModel::ItemGateUnmet { item } => around("'"@, item, "' cannot be taken yet (prerequisite unmet)"@),
        ReasonModel::ItemFixed { item } => around("'"@, item, "' is fixed in place (use it where it is instead of taking it)"@),
        ReasonModel::ItemNotHeld { item } => around("cannot drop '"@, item, "' because you do not hold it"@),
        ReasonModel::FlagNotAllowed { key } => around("flag '"@, key, "' is not allowed"@),
        ReasonModel::FlagGateUnmet { key } => around("prerequisite to set flag '"@, key, "' is unmet"@),
        ReasonModel::NoExit { to } => around("there is no exit to '"@, to, "'"@),
        ReasonModel::MoveGateUnmet { to } => around("the condition to move to '"@, to, "' is unmet"@),
        ReasonModel::DiceSidesInvalid => "a die must have at least 1 side"@,
        ReasonModel::UnknownStat { entity, key } => around("stat '"@, key, "' of '"@) + entity
            + "' is not declared in this scenario"@,
        ReasonModel::DivideByZero { key } => around("cannot divide stat '"@, key, "' by zero"@),
        ReasonModel::UnknownEntity { entity } => around("'"@, entity, "' does not exist in this scenario"@),
        ReasonModel::UnknownChallenge { challenge } => around("challenge '"@, challenge, "' is not declared"@),
        ReasonModel::ChallengeLocked { challenge } => around("challenge '"@, challenge, "' cannot be attempted yet (prerequisite unmet)"@),
        ReasonModel::SkillGrantNotAllowed { entity, skill } => around("only the story can grant skill '"@, skill, "' to '"@)
            + entity + "'"@,
        ReasonModel::AttributeSetNotAllowed { entity, key } => around("only the story can rewrite attribute '"@, key, "' of '"@)
            + entity + "'"@,
        ReasonModel::TurnRecordNotAllowed { entity, key } => around("only the story can stamp the turn into stat '"@, key, "' of '"@)
            + entity + "'"@,
        ReasonModel::PresenceSetNotAllowed { entity } => around("only the story can bring '"@, entity, "' on or off the scene"@),
        ReasonModel::TabooViolated { entity } => around("this would break a taboo of '"@, entity, "'"@),
    }
}

/// The wording of a reason in a language.
pub open spec fn localize_spec(r: ReasonModel, lang: Lang) -> Seq<char> {
    match lang {
        Lang::Ja => ja_spec(r),
        Lang::En => en_spec(r),
    }
}

/// `a` + `x` + `b` as a new string.
fn around3(a: &str, x: &str, b: &str) -> (r: String)
    ensures
        r@ == around(a@, x@, b@),
{
    let mut s = String::from_str(a);
    s.append(x);
    s.append(b);
    s
}

/// `a` + `x` + `b` + `y` + `c` as a new string.
fn around5(a: &str, x: &str, b: &str, y: &str, c: &str) -> (r: String)
    ensures
        r@ == around(a@, x@, b@) + y@ + c@,
{
    let mut s = around3(a, x, b);
    s.append(y);
    s.append(c);
    s
}

impl RejectReason {
    /// The reason worded in a language.
    pub fn localize(&self, lang: Lang) -> (s: String)
        ensures
            s@ == localize_spec(self@, lang),
    {
        match lang {
            Lang::Ja => self.ja(),
            Lang::En => self.en(),
        }
    }

    fn ja(&self) -> (s: String)
        ensures
            s@ == ja_spec(self@),
    {
        match self {
            RejectReason::CurrentLocationMissing { location } => around3("現在地 '", location.as_str(), "' がシナリオに存在しない"),
            RejectReason::ItemAlreadyHeld { item } => around3("'", item.as_str(), "' は既に所持している"),
            RejectReason::ItemNotHere { item } => around3("'", item.as_str(), "' はこの場所には存在しない"),
            RejectReason::ItemGateUnmet { item } => around3("'", item.as_str(), "' はまだ取得できない (前提条件が未達)"),
            RejectReason::ItemFixed { item } => around3("'", item.as_str(), "' は備え付けなので持ち出せない (取らずにその場で使える)"),
            RejectReason::ItemNotHeld { item } => around3("'", item.as_str(), "' を所持していないので手放せない"),
            RejectReason::FlagNotAllowed { key } => around3("フラグ '", key.as_str(), "' は許可されていない"),
            RejectReason::FlagGateUnmet { key } => around3("フラグ '", key.as_str(), "' を立てる前提条件が未達"),
            RejectReason::NoExit { to } => around3("'", to.as_str(), "' への出口は存在しない"),
            RejectReason::MoveGateUnmet { to } => around3("'", to.as_str(), "' への移動条件が未達"),
            RejectReason::DiceSidesInvalid => String::from_str("ダイスの面数は1以上でなければならない"),
            RejectReason::UnknownStat { entity, key } => around5(
                "'",
                entity.as_str(),
                "' の stat '",
                key.as_str(),
                "' はこのシナリオに宣言されていない",
            ),
            RejectReason::DivideByZero { key } => around3("stat '", key.as_str(), "' をゼロで割ることはできない"),
            RejectReason::UnknownEntity { entity } => around3("'", entity.as_str(), "' はこのシナリオに存在しない"),
            RejectReason::UnknownChallenge { challenge } => around3("挑戦 '", challenge.as_str(), "' は宣言されていない"),
            RejectReason::ChallengeLocked { challenge } => around3("挑戦 '", challenge.as_str(), "' にはまだ挑めない (前提条件が未達)"),
            RejectReason::SkillGrantNotAllowed { entity, skill } => around5(
                "'",
                entity.as_str(),
                "' に能力 '",
                skill.as_str(),
                "' を付与できるのは筋書きだけ",
            ),
            RejectReason::AttributeSetNotAllowed { entity, key } => around5(
                "'",
                entity.as_str(),
                "' の属性 '",
                key.as_str(),
                "' を書き換えられるのは筋書きだけ",
            ),
            RejectReason::TurnRecordNotAllowed { entity, key } => around5(
                "'",
                entity.as_str(),
                "' の stat '",
                key.as_str(),
                "' にターンを刻めるのは筋書きだけ",
            ),
            RejectReason::PresenceSetNotAllowed { entity } => around3("'", entity.as_str(), "' の登場/退場を決められるのは筋書きだけ"),
            RejectReason::TabooViolated { entity } => around3("'", entity.as_str(), "' の禁忌に触れる"),
        }
    }

    fn en(&self) -> (s: String)
        ensures
            s@ == en_spec(self@),
    {
        match self {
            RejectReason::CurrentLocationMissing { location } => around3("current location '", location.as_str(), "' does not exist in the scenario"),
            RejectReason::ItemAlreadyHeld { item } => around3("'", item.as_str(), "' is already in your inventory"),
            RejectReason::ItemNotHere { item } => around3("'", item.as_str(), "' is not present in this location"),
            RejectReason::ItemGateUnmet { item } => around3("'", item.as_str(), "' cannot be taken yet (prerequisite unmet)"),
            RejectReason::ItemFixed { item } => around3("'", item.as_str(), "' is fixed in place (use it where it is instead of taking it)"),
            RejectReason::ItemNotHeld { item } => around3("cannot drop '", item.as_str(), "' because you do not hold it"),
            RejectReason::FlagNotAllowed { key } => around3("flag '", key.as_str(), "' is not allowed"),
            RejectReason::FlagGateUnmet { key } => around3("prerequisite to set flag '", key.as_str(), "' is unmet"),
            RejectReason::NoExit { to } => around3("there is no exit to '", to.as_str(), "'"),
            RejectReason::MoveGateUnmet { to } => around3("the condition to move to '", to.as_str(), "' is unmet"),
            RejectReason::DiceSidesInvalid => String::from_str("a die must have at least 1 side"),
            RejectReason::UnknownStat { entity, key } => around5(
                "stat '",
                key.as_str(),
                "' of '",
                entity.as_str(),
                "' is not declared in this scenario",
            ),
            RejectReason::DivideByZero { key } => around3("cannot divide stat '", key.as_str(), "' by zero"),
            RejectReason::UnknownEntity { entity } => around3("'", entity.as_str(), "' does not exist in this scenario"),
            RejectReason::UnknownChallenge { challenge } => around3("challenge '", challenge.as_str(), "' is not declared"),
            RejectReason::ChallengeLocked { challenge } => around3("challenge '", challenge.as_str(), "' cannot be attempted yet (prerequisite unmet)"),
            RejectReason::SkillGrantNotAllowed { entity, skill } => around5(
                "only the story can grant skill '",
                skill.as_str(),
                "' to '",
                entity.as_str(),
                "'",
            ),
            RejectReason::AttributeSetNotAllowed { entity, key } => around5(
                "only the story can rewrite attribute '",
                key.as_str(),
                "' of '",
                entity.as_str(),
                "'",
            ),
            RejectReason::TurnRecordNotAllowed { entity, key } => around5(
                "only the story can stamp the turn into stat '",
                key.as_str(),
                "' of '",
                entity.as_str(),
                "'",
            ),
            RejectReason::PresenceSetNotAllowed { entity } => around3("only the story can bring '", entity.as_str(), "' on or off the scene"),
            RejectReason::TabooViolated { entity } => around3("this would break a taboo of '", entity.as_str(), "'"),
        }
    }
}

} // verus!
