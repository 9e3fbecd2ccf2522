//! Command-stream interception for a real-time-strategy game's per-frame
//! player-command protocol.
//!
//! The heart of the crate is [`commands`]: it splits a raw, opcode-tagged byte
//! stream into individual commands, applies replay filtering, and dispatches
//! each command through an ordered chain of registered interceptor hooks,
//! with verified framing, ordering and re-entry semantics.
//! [`save`] holds the registry and the chunk format used to attach extension
//! data to save files.

pub mod commands;
pub mod save;

use vstd::prelude::*;
use vstd::string::StringSliceAdditionalSpecFns;

verus! {

/// Version of the plugin interface this crate models.
pub const VERSION: u16 = 43;

/// An owned byte string handed across the plugin interface.
///
/// `len` always equals the number of bytes held.
pub struct FfiStr {
    pub bytes: Vec<u8>,
    pub len: usize,
}

impl FfiStr {
    /// `len` matches the byte buffer.
    pub open spec fn wf(&self) -> bool {
        self.len == self.bytes@.len()
    }

    pub fn from_str(input: &str) -> (r: FfiStr)
        ensures
            r.wf(),
            r.bytes@ == input.spec_bytes(),
    {
        Self::from_bytes(input.as_bytes())
    }

    pub fn from_bytes(input: &[u8]) -> (r: FfiStr)
        ensures
            r.wf(),
            r.bytes@ == input@,
    {
        let len = input.len();
        FfiStr {
            bytes: vstd::slice::slice_to_vec(input),
            len,
        }
    }

    pub fn to_bytes(&self) -> (r: &Vec<u8>)
        ensures
            r@ == self.bytes@,
    {
        &self.bytes
    }
}

/// Identifier of one log window shown by the debug UI.
pub struct DebugUiLog(pub u32);

/// Colour selector for debug UI text: either the default, an RGB value, or a
/// player's colour.
pub struct DebugUiColor(pub u32);

impl DebugUiColor {
    pub fn none() -> (r: DebugUiColor)
        ensures
            r.0 == 0u32,
    {
        DebugUiColor(0)
    }

    pub fn rgb(color: u32) -> (r: DebugUiColor)
        ensures
            r.0 == (0x0100_0000u32 | color),
    {
        DebugUiColor(0x0100_0000 | color)
    }

    pub fn player(player: u8) -> (r: DebugUiColor)
        ensures
            r.0 == (0x0200_0000u32 | (player as u32)),
    {
        DebugUiColor(0x0200_0000 | (player as u32))
    }
}

/// Engine functions an extension can hook or call through the plugin
/// interface.
#[derive(Copy, Clone, Eq, PartialEq, Structural, Debug)]
pub enum FuncId {
    UnitCanRally,
    UnitCanBeInfested,
    DoMissileDamage,
    HitUnit,
    HallucinationHit,
    DamageUnit,
    KillUnit,
    UnitSetHp,
    TransformUnit,
    GiveUnit,
    PlaceCreepRect,
    PlaceFinishedUnitCreep,
    AddAiToTrainedUnit,
    AddBuildingAi,
    AddTownUnitAi,
    AddMilitaryAi,
    AiRemoveUnit,
    AiRemoveUnitMilitary,
    AiRemoveUnitTown,
    UnitMaxEnergy,
    UnitAttackRange,
    UnitTargetAcquisitionRange,
    UnitSightRange,
    CheckWeaponTargetingFlags,
    CheckTechTargeting,
    CheckOrderTargeting,
    CheckFowOrderTargeting,
    HideUnit,
    ShowUnit,
    GetRenderTarget,
    MoveScreen,
    SelectUnits,
    AiAddMilitaryToRegion,
    AiTrainMilitary,
    AiAttackPrepare,
    AiAttackClear,
    AiRegionUpdateStrength,
    AiRegionUpdateTarget,
    AiRegionAbandonIfOverwhelmed,
    AiRegionPickAttackTarget,
    AiStepRegion,
    AiTargetExpansion,
    StepGameLogic,
    StepUnitTimers,
    StartCloaking,
    UnitAiWorker,
    UnitAiMilitary,
    UnitAiBuilding,
    FindNearestUnitInArea,
    FindNearestUnitAroundUnit,
    CanAttackUnit,
    IsOutsideAttackRange,
    AiCanTargetAttackThis,
    AiTryReturnHome,
    ForEachUnitInArea,
    PrepareBuildUnit,
    CalculatePath,
    AiPlaceBuilding,
    GetChokePointRegions,
    AiUpdateBuildingPlacementState,
    UpdateBuildingPlacementState,
    FindNearestUnitInAreaPoint,
    AiPickBestPlacementPosition,
    AiPlacementFlags,
    _Last,
}

/// Engine variables an extension can read or write through the plugin
/// interface.
#[derive(Copy, Clone, Eq, PartialEq, Structural, Debug)]
pub enum VarId {
    Game,
    RngSeed,
    RngEnable,
    AiRegions,
    PlayerAi,
    FirstActiveUnit,
    FirstHiddenUnit,
    Units,
    UnitsVector,
    FirstAiScript,
    FirstFreeAiScript,
    FirstGuardAi,
    ActiveAiTowns,
    Pathing,
    Selections,
    ClientSelection,
    LoadedSave,
    MapTileFlags,
    Players,
    IscriptBin,
    SpriteHlines,
    SpriteHlinesEnd,
    FirstActiveBullet,
    FirstLoneSprite,
    ScreenX,
    ScreenY,
    Zoom,
    FirstFowSprite,
    DrawCursorMarker,
    IsPaused,
    IsTargeting,
    IsPlacingBuilding,
    TooltipDrawFunc,
    GraphicLayers,
    ActiveIscriptFlingy,
    ActiveIscriptUnit,
    ActiveIscriptBullet,
    CmdIconsDdsGrp,
    CmdBtnsDdsGrp,
    StatusScreenMode,
    DatRequirementError,
    FirstPlayerUnit,
    UnitShouldRevealArea,
    Allocator,
    GameData,
    ReplayData,
    ReplayHeader,
    ScMainState,
    CommandUser,
    UniqueCommandUser,
    IsReplay,
    LocalPlayerId,
    LocalUniquePlayerId,
    IsMultiplayer,
    LastLoneSprite,
    FirstFreeLoneSprite,
    LastFreeLoneSprite,
    LastFowSprite,
    FirstFreeFowSprite,
    LastFreeFowSprite,
    CursorMarker,
    ResourceAreas,
    DrawCommands,
    VertexBuffer,
    Renderer,
    FirstDialog,
    MainPalette,
    RgbColors,
    UseRgbColors,
    GameScreenWidthBwpx,
    GameScreenHeightBwpx,
    StepGameFrames,
    StatportTalkingPortraitActive,
    TilesetCv5,
    MinitileData,
    TilesetIndexedMapTiles,
    CreepOriginalTiles,
    CreepTileBorders,
    _Last,
}

/// Kind of one substituted parameter on a debug UI complex line.
#[derive(Copy, Clone, Eq, PartialEq, Structural, Debug)]
pub enum ComplexLineParamType {
    Unit,
    UnitId,
    Point,
    AiRegion,
    AiTown,
    TechId,
    UpgradeId,
    I32,
    PlayerId,
}

} // verus!
