//! Keeping the brightness of devices from one session to the next: what is
//! recorded, where the record lies, and how a record is put back.

use vstd::prelude::*;
use vstd::string::StringExecFns;
use crate::class::Class;
use crate::controller::{
    applied, error_text, spec_failure, spec_request, Controller, ErrorView, Outcome, Request,
};
use crate::device::{read_view, spec_from_path, Device, DeviceView, FileRead};
use crate::discovery::{DeviceFilters, FiltersView};
use crate::error::{path_error_text, PathErrorView};
use crate::number::Brightness;
use crate::path::{
    components, file_name, has_root, is_absolute, join, lemma_parent_and_file_name, parent,
    spec_file_name, spec_join, spec_parent,
};
use crate::text::{chars_of, glue};

verus! {

/// What is recorded of a device: where it is, and its brightness.
#[derive(Debug, PartialEq, Eq)]
pub struct SaveData {
    pub path: String,
    pub brightness: Brightness,
}

/// `SaveData` as a mathematical value.
pub struct SaveDataView {
    pub path: Seq<char>,
    pub brightness: Brightness,
}

impl View for SaveData {
    type V = SaveDataView;

    open spec fn view(&self) -> SaveDataView {
        SaveDataView { path: self.path@, brightness: self.brightness }
    }
}

impl DeepView for SaveData {
    type V = SaveDataView;

    open spec fn deep_view(&self) -> SaveDataView {
        self@
    }
}

/// The record of a device.
pub open spec fn record_of(device: DeviceView) -> SaveDataView {
    SaveDataView { path: device.path, brightness: device.brightness }
}

impl From<Device> for SaveData {
    fn from(device: Device) -> (r: Self) {
        SaveData { path: device.path, brightness: device.brightness }
    }
}

impl vstd::std_specs::convert::FromSpecImpl<Device> for SaveData {
    open spec fn obeys_from_spec() -> bool {
        true
    }

    open spec fn from_spec(device: Device) -> Self {
        SaveData { path: device.path, brightness: device.brightness }
    }
}

/// The records of the devices, in their order.
pub fn save(devices: Vec<Device>) -> (r: Vec<SaveData>)
    ensures
        r.deep_view() == devices.deep_view().map_values(|d: DeviceView| record_of(d)),
{
    let ghost views = devices.deep_view();
    let mut r: Vec<SaveData> = Vec::new();
    for device in it: devices
        invariant
            it.seq().len() == views.len(),
            forall|i: int| 0 <= i < views.len() ==> (#[trigger] it.seq()[i])@ == views[i],
            r.len() == it.index(),
            forall|i: int| 0 <= i < r.len() ==> (#[trigger] r[i])@ == record_of(views[i]),
    {
        r.push(SaveData::from(device));
    }
    assert(r.deep_view() =~= views.map_values(|d: DeviceView| record_of(d)));
    r
}

/// A directory and the name of a file in it.
pub type FilePath = (String, String);

/// Where the state of programs is kept, as the environment gives it.
#[derive(Debug, PartialEq, Eq)]
pub struct Environment {
    /// The directory that the user set for state, if any.
    pub xdg_state_home: Option<String>,
    /// The user's home directory, if known.
    pub home_dir: Option<String>,
    /// The name under which the program keeps its state.
    pub program: String,
}

/// An `Environment` as a mathematical value.
pub struct EnvironmentView {
    pub xdg_state_home: Option<Seq<char>>,
    pub home_dir: Option<Seq<char>>,
    pub program: Seq<char>,
}

impl View for Environment {
    type V = EnvironmentView;

    open spec fn view(&self) -> EnvironmentView {
        EnvironmentView {
            xdg_state_home: match self.xdg_state_home {
                Some(dir) => Some(dir@),
                None => None,
            },
            home_dir: match self.home_dir {
                Some(dir) => Some(dir@),
                None => None,
            },
            program: self.program@,
        }
    }
}

/// No place for the record could be made out.
#[derive(Debug, Clone, Copy, PartialEq, Eq, Structural)]
pub struct NoSavePath;

/// The directory for state: the one the user set, if it is set, not empty
/// and rooted; else `.local/state` in the home directory.
pub open spec fn state_home(env: EnvironmentView) -> Option<Seq<char>> {
    match env.xdg_state_home {
        Some(dir) if dir.len() > 0 && has_root(dir) => Some(dir),
        _ => match env.home_dir {
            Some(home) => Some(spec_join(home, ".local/state"@)),
            None => None,
        },
    }
}

/// The directory in which the program keeps its state.
pub open spec fn spec_xdg_state_path(env: EnvironmentView) -> Option<Seq<char>> {
    match state_home(env) {
        Some(dir) => Some(spec_join(dir, env.program)),
        None => None,
    }
}

/// The place of the record: the one given, or else the file
/// `device-data.json` in the program's state directory.
pub open spec fn spec_save_path(
    default: Option<(Seq<char>, Seq<char>)>,
    env: EnvironmentView,
) -> Result<(Seq<char>, Seq<char>), NoSavePath> {
    match default {
        Some(place) => Ok(place),
        None => match spec_xdg_state_path(env) {
            Some(dir) => Ok((dir, "device-data.json"@)),
            None => Err(NoSavePath),
        },
    }
}

/// A path that names a file, as its directory and the file's name. A path
/// that ends with a separator names a directory; a path whose last
/// component is no name names no file.
pub open spec fn spec_validate_file_path(opt: Seq<char>) -> Result<
    (Seq<char>, Seq<char>),
    Seq<char>,
> {
    if opt.len() > 0 && opt.last() == '/' {
        Err("must be a path to a file, not a directory"@)
    } else {
        match spec_file_name(opt) {
            None => Err("path has no name component"@),
            Some(name) => Ok(
                (
                    match spec_parent(opt) {
                        Some(dir) => dir,
                        None => Seq::empty(),
                    },
                    name,
                ),
            ),
        }
    }
}

/// The filters for saving: where none is given, the backlights.
pub open spec fn spec_save_filters(f: FiltersView) -> FiltersView {
    if f.class is None && f.device_name is None {
        FiltersView { class: Some(Class::Backlight), device_name: None }
    } else {
        f
    }
}

/// The directory in which the program keeps its state.
pub fn get_xdg_state_path(env: &Environment) -> (r: Option<String>)
    ensures
        match r {
            Some(dir) => spec_xdg_state_path(env@) == Some(dir@),
            None => spec_xdg_state_path(env@) is None,
        },
{
    let set: Option<String> = match &env.xdg_state_home {
        Some(dir) => if dir.as_str().unicode_len() > 0 && is_absolute(dir.as_str()) {
            Some(dir.clone())
        } else {
            None
        },
        None => None,
    };
    let home: Option<String> = match set {
        Some(dir) => Some(dir),
        None => match &env.home_dir {
            Some(home) => Some(join(home.as_str(), ".local/state")),
            None => None,
        },
    };
    match home {
        Some(dir) => Some(join(dir.as_str(), env.program.as_str())),
        None => None,
    }
}

/// The place of the record: `default` where it is given, or else the file
/// `device-data.json` in the program's state directory.
pub fn get_save_path(default: Option<FilePath>, env: &Environment) -> (r: Result<
    FilePath,
    NoSavePath,
>)
    ensures
        match r {
            Ok(place) => spec_save_path(
                match default {
                    Some(d) => Some((d.0@, d.1@)),
                    None => None,
                },
                env@,
            ) == Ok::<(Seq<char>, Seq<char>), NoSavePath>((place.0@, place.1@)),
            Err(e) => spec_save_path(
                match default {
                    Some(d) => Some((d.0@, d.1@)),
                    None => None,
                },
                env@,
            ) == Err::<(Seq<char>, Seq<char>), NoSavePath>(e),
        },
{
    match default {
        Some(place) => Ok(place),
        None => match get_xdg_state_path(env) {
            Some(dir) => Ok((dir, String::from_str("device-data.json"))),
            None => Err(NoSavePath),
        },
    }
}

/// A path that names a file, as its directory and the file's name.
pub fn validate_file_path(opt: &str) -> (r: Result<FilePath, String>)
    ensures
        match r {
            Ok(place) => spec_validate_file_path(opt@) == Ok::<(Seq<char>, Seq<char>), Seq<char>>(
                (place.0@, place.1@),
            ),
            Err(message) => spec_validate_file_path(opt@) == Err::<
                (Seq<char>, Seq<char>),
                Seq<char>,
            >(message@),
        },
{
    let chars = chars_of(opt);
    if chars.len() > 0 && chars[chars.len() - 1] == '/' {
        return Err(String::from_str("must be a path to a file, not a directory"));
    }
    let base = match parent(opt) {
        Some(dir) => dir,
        None => String::new(),
    };
    match file_name(opt) {
        Some(name) => Ok((base, name)),
        None => Err(String::from_str("path has no name component")),
    }
}

/// The filters for saving: where none is given, the backlights.
pub fn save_filters(filters: DeviceFilters) -> (r: DeviceFilters)
    ensures
        r@ == spec_save_filters(filters@),
{
    if filters.class.is_none() && filters.device_name.is_none() {
        DeviceFilters { class: Some(Class::Backlight), device_name: None }
    } else {
        filters
    }
}

impl NoSavePath {
    /// The words for the failure.
    pub fn message(&self) -> (r: String)
        ensures
            r@ == "could not determine a valid path"@,
    {
        String::from_str("could not determine a valid path")
    }
}

/// Why a record was not put back.
#[derive(Debug, PartialEq, Eq)]
pub enum RestoreError {
    /// There is no device at the recorded path.
    Device(crate::device::Error),
    /// The brightness of the named device was not set.
    Controller { name: String, error: crate::controller::Error },
}

/// A `RestoreError` as a mathematical value.
pub enum RestoreErrorView {
    Device(PathErrorView),
    Controller { name: Seq<char>, error: ErrorView },
}

impl View for RestoreError {
    type V = RestoreErrorView;

    open spec fn view(&self) -> RestoreErrorView {
        match *self {
            RestoreError::Device(e) => RestoreErrorView::Device(e@),
            RestoreError::Controller { name, error } => RestoreErrorView::Controller {
                name: name@,
                error: error@,
            },
        }
    }
}

/// The words for a record that was not put back.
pub open spec fn restore_error_text(e: RestoreErrorView) -> Seq<char> {
    match e {
        RestoreErrorView::Device(e) => path_error_text(e),
        RestoreErrorView::Controller { name, error } => "failed to set brightness for device \""@
            + name + "\": "@ + error_text(error),
    }
}

impl RestoreError {
    /// The words for the failure.
    pub fn message(&self) -> (r: String)
        ensures
            r@ == restore_error_text(self@),
    {
        match self {
            RestoreError::Device(e) => e.message(),
            RestoreError::Controller { name, error } => {
                let head = glue("failed to set brightness for device \"", name.as_str());
                let mid = glue(head.as_str(), "\": ");
                glue(mid.as_str(), error.message().as_str())
            },
        }
    }
}

/// The device that a record speaks of, given what reading its two files
/// gave, and what is to be done to give it the recorded brightness. The
/// device is made out from the recorded path alone.
pub fn restore_request(
    controller: &Controller,
    record: &SaveData,
    brightness: &FileRead,
    max_brightness: &FileRead,
) -> (r: Result<(Device, Request), RestoreError>)
    ensures
        match r {
            Ok((device, request)) => {
                &&& spec_from_path(record.path@, read_view(*brightness), read_view(*max_brightness))
                    == Ok::<DeviceView, PathErrorView>(device@)
                &&& request@ == spec_request(controller.uses_session(), device@, record.brightness)
            },
            Err(e) => {
                &&& spec_from_path(record.path@, read_view(*brightness), read_view(*max_brightness))
                    matches Err(cause)
                &&& e@ == RestoreErrorView::Device(cause)
            },
        },
{
    match Device::from_path(record.path.as_str(), brightness, max_brightness) {
        Ok(device) => {
            let request = controller.request(&device, record.brightness);
            Ok((device, request))
        },
        Err(e) => Err(RestoreError::Device(e)),
    }
}

/// The device after the request for the recorded brightness was carried
/// out, or the reason why its brightness is as before.
pub fn restore_finish(
    controller: &Controller,
    device: Device,
    record: &SaveData,
    outcome: Outcome,
) -> (r: Result<Device, RestoreError>)
    ensures
        match outcome {
            Outcome::Done => {
                &&& r matches Ok(restored)
                &&& restored@ == (DeviceView {
                    brightness: applied(record.brightness, device.max_brightness),
                    ..device@
                })
            },
            Outcome::Failed(message) => {
                &&& r matches Err(e)
                &&& e@ == (RestoreErrorView::Controller {
                    name: device.name@,
                    error: spec_failure(controller.uses_session(), device@, message@),
                })
            },
        },
{
    let mut device = device;
    match controller.set_brightness(&mut device, record.brightness, outcome) {
        Ok(_) => Ok(device),
        Err(error) => Err(RestoreError::Controller { name: device.name, error }),
    }
}

/// Whether a record was not put back.
pub fn restore_failed(results: &Vec<Result<Device, RestoreError>>) -> (r: bool)
    ensures
        r == exists|i: int| 0 <= i < results.len() && (#[trigger] results[i]) is Err,
{
    let mut i: usize = 0;
    while i < results.len()
        invariant
            i <= results.len(),
            forall|j: int| 0 <= j < i ==> (#[trigger] results[j]) is Ok,
        decreases results.len() - i,
    {
        if results[i].is_err() {
            return true;
        }
        i = i + 1;
    }
    false
}

/// A path that names a file is made up again of the directory and the name
/// it is taken for: what the two are joined to has the components of the
/// path.
pub proof fn lemma_file_path_is_whole(opt: Seq<char>)
    requires
        spec_validate_file_path(opt) is Ok,
    ensures
        ({
            let place = spec_validate_file_path(opt)->Ok_0;
            components(spec_join(place.0, place.1)) == components(opt)
        }),
{
    lemma_parent_and_file_name(opt);
}

/// A device that is given its recorded brightness has that brightness,
/// where its range is what it was when the record was made.
pub proof fn lemma_restore_round_trip(saved: DeviceView, found: DeviceView)
    requires
        saved.consistent(),
        found.max_brightness == saved.max_brightness,
    ensures
        applied(record_of(saved).brightness, found.max_brightness) == saved.brightness,
        record_of(saved).path == saved.path,
{
}

} // verus!
