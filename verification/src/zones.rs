//! Zone lifecycle logic: the commands the zone window issues, the primary
//! zone selection, and the computing halves of saving and loading a zone —
//! what file a save writes and what placements a load requests.
//!
//! Scene entities are carried as plain numeric ids; spawning, file access
//! and event delivery stay with the host runtime.

use vstd::prelude::*;
use crate::codec::{parse_zone_file, serialize_zone_file, spec_ser_zone_file};
use crate::names::{spec_normalize_zone_name, zone_file_path};
use crate::zone_file::{CustomPropView, CustomPropsMap, Vec3, ZoneEntityView, ZoneFile};

verus! {

/// Marks a scene entity as a zone root.
#[derive(Debug)]
pub struct ZoneComponent {}

/// Marks an entity that the zone exporter must not record.
#[derive(Debug)]
pub struct NotInScene;

/// A command issued against the zone system; entities are engine ids.
#[derive(Debug)]
pub enum ZoneEvent {
    SetZoneAsPrimary(u64),
    SaveZoneToFile(u64),
    CreateNewZone(String),
    LoadZoneFile(String),
    ResetPrimaryZone,
}

/// Which zone newly placed doodads belong to.
#[derive(Debug)]
pub struct ZoneResource {
    pub primary_zone: Option<u64>,
}

impl Default for ZoneResource {
    fn default() -> (r: Self)
        ensures
            r.primary_zone is None,
    {
        ZoneResource { primary_zone: None }
    }
}

impl ZoneResource {
    /// Makes the given zone the primary one.
    pub fn set_primary(&mut self, zone: u64)
        ensures
            final(self).primary_zone == Some(zone),
    {
        self.primary_zone = Some(zone);
    }

    /// Clears the primary zone.
    pub fn reset_primary(&mut self)
        ensures
            final(self).primary_zone is None,
    {
        self.primary_zone = None;
    }
}

/// State of the zone window: the file names being typed and the outcome of
/// the last zone command.
#[derive(Debug)]
pub struct ZoneWindowState {
    pub create_filename: String,
    pub load_filename: String,
    pub zone_create_result: Option<Result<(), String>>,
}

/// A request to place one doodad, handed to the spawning system.
#[derive(Debug)]
pub struct PlaceDoodadRequest {
    pub doodad_name: String,
    pub position: Vec3,
    pub rotation_euler: Option<Vec3>,
    pub scale: Option<Vec3>,
    pub custom_props: Option<CustomPropsMap>,
    pub zone: Option<u64>,
}

/// The mathematical value of a placement request.
#[verifier::ext_equal]
pub struct PlaceDoodadRequestView {
    pub doodad_name: Seq<char>,
    pub position: Vec3,
    pub rotation_euler: Option<Vec3>,
    pub scale: Option<Vec3>,
    pub custom_props: Option<Seq<(Seq<char>, CustomPropView)>>,
    pub zone: Option<u64>,
}

impl View for PlaceDoodadRequest {
    type V = PlaceDoodadRequestView;

    open spec fn view(&self) -> PlaceDoodadRequestView {
        PlaceDoodadRequestView {
            doodad_name: self.doodad_name@,
            position: self.position,
            rotation_euler: self.rotation_euler,
            scale: self.scale,
            custom_props: match &self.custom_props {
                Some(m) => Some(m@),
                None => None,
            },
            zone: self.zone,
        }
    }
}

/// The placement request a recorded entity gives rise to.
pub open spec fn spec_request_for(e: ZoneEntityView, zone: u64) -> PlaceDoodadRequestView {
    PlaceDoodadRequestView {
        doodad_name: e.name,
        position: e.transform.translation,
        rotation_euler: Some(e.transform.rotation),
        scale: Some(e.transform.scale),
        custom_props: e.custom_props,
        zone: Some(zone),
    }
}

/// Turns every entity of a zone file into a placement request for the
/// spawning system, in file order, each tagged with the owning zone.
pub fn placement_requests(file: &ZoneFile, zone: u64) -> (r: Vec<PlaceDoodadRequest>)
    ensures
        r@.len() == file@.len(),
        forall|i: int| 0 <= i < r@.len() ==> (#[trigger] r@[i])@ == spec_request_for(file@[i], zone),
{
    let mut r: Vec<PlaceDoodadRequest> = Vec::new();
    let n = file.entities.len();
    let mut k: usize = 0;
    while k < n
        invariant
            n == file.entities@.len(),
            file@.len() == n,
            k <= n,
            r@.len() == k,
            forall|i: int|
                0 <= i < k ==> (#[trigger] r@[i])@ == spec_request_for(file@[i], zone),
        decreases n - k,
    {
        let e = &file.entities[k];
        let position = e.get_position();
        let rotation = e.get_rotation_euler();
        let scale = e.get_scale();
        let props = match e.get_custom_props() {
            Some(m) => Some(m.clone()),
            None => None,
        };
        let request = PlaceDoodadRequest {
            doodad_name: e.name.clone(),
            position,
            rotation_euler: Some(rotation),
            scale: Some(scale),
            custom_props: props,
            zone: Some(zone),
        };
        proof {
            assert(file@[k as int] == file.entities@[k as int]@);
            assert(request@ =~= spec_request_for(file@[k as int], zone));
        }
        r.push(request);
        k += 1;
    }
    r
}

/// Why loading a zone was aborted.
#[derive(Clone, Copy, PartialEq, Eq, Structural, Debug)]
pub enum ZoneLoadError {
    /// The file is not a zone file rendering; nothing was imported.
    MalformedZoneFile,
}

/// The computing half of saving a zone: the file path derived from the
/// zone's name (stale suffixes stripped, the canonical suffix appended)
/// and the exact text the file will hold.
pub fn plan_zone_save(zone_name: &str, file: &ZoneFile) -> (r: (String, Vec<char>))
    ensures
        r.0@ == "assets/zones/"@ + spec_normalize_zone_name(zone_name@) + ".zone.ron"@,
        r.1@ == spec_ser_zone_file(file@),
{
    let path = zone_file_path(zone_name);
    let text = serialize_zone_file(file);
    (path, text)
}

/// The computing half of loading a zone: parses the file text and turns
/// each recorded entity into a placement request tagged with the owning
/// zone. Malformed text aborts the whole load — no partial import.
pub fn plan_zone_load(text: &Vec<char>, zone: u64) -> (r: Result<
    Vec<PlaceDoodadRequest>,
    ZoneLoadError,
>)
    ensures
        (r is Ok) <==> (exists|f: Seq<ZoneEntityView>| text@ == #[trigger] spec_ser_zone_file(f)),
        r matches Err(e) ==> e == ZoneLoadError::MalformedZoneFile,
        r matches Ok(reqs) ==> forall|f: Seq<ZoneEntityView>|
            text@ == #[trigger] spec_ser_zone_file(f) ==> reqs@.len() == f.len() && (forall|i: int|
                0 <= i < f.len() ==> (#[trigger] reqs@[i])@ == spec_request_for(f[i], zone)),
{
    match parse_zone_file(text) {
        Some(file) => {
            let requests = placement_requests(&file, zone);
            Ok(requests)
        },
        None => Err(ZoneLoadError::MalformedZoneFile),
    }
}

} // verus!
