//! Finding devices: which entries of the class directories are taken for
//! devices, in which order, and what becomes of those that are none.

use vstd::prelude::*;
use vstd::string::StringExecFns;
use crate::class::Class;
use crate::device::{read_view, spec_from_path, Device, DeviceView, Error, FileRead};
use crate::error::{path_error_text, Cause, CauseView, PathError, PathErrorView};
use crate::order::{
    as_positions, by_components_at, is_distinct, is_ordered, is_total, is_transitive,
    lemma_path_precedes, lemma_sorted_by, lemma_sorted_by_any_order, lemma_sorted_by_map,
    path_precedes, positions, sort_positions, sorted_by,
};
use crate::path::{components, components_of, ends_with, spec_ends_with, spec_file_name, texts};
use crate::text::glue;

verus! {

/// What narrows a search for devices.
#[derive(Debug, PartialEq, Eq)]
pub struct DeviceFilters {
    /// The only class to search, if any.
    pub class: Option<Class>,
    /// The components in which the path of a device has to end, if any.
    pub device_name: Option<String>,
}

/// `DeviceFilters` as a mathematical value.
pub struct FiltersView {
    pub class: Option<Class>,
    pub device_name: Option<Seq<char>>,
}

impl View for DeviceFilters {
    type V = FiltersView;

    open spec fn view(&self) -> FiltersView {
        FiltersView {
            class: self.class,
            device_name: match self.device_name {
                Some(name) => Some(name@),
                None => None,
            },
        }
    }
}

impl FiltersView {
    /// The path ends in the components of the name that is asked for.
    pub open spec fn matches(self, path: Seq<char>) -> bool {
        match self.device_name {
            Some(name) => spec_ends_with(path, name),
            None => true,
        }
    }

    /// The class is one to search.
    pub open spec fn wants(self, class: Class) -> bool {
        match self.class {
            Some(c) => c == class,
            None => true,
        }
    }

    /// The classes to search: the one asked for, or else the backlights and
    /// then the lights.
    pub open spec fn roots(self) -> Seq<Class> {
        match self.class {
            Some(c) => seq![c],
            None => seq![Class::Backlight, Class::Leds],
        }
    }
}

/// What reading the two files of a device gave.
#[derive(Debug, PartialEq, Eq)]
pub struct Files {
    /// What reading the brightness file gave.
    pub brightness: FileRead,
    /// What reading the file of the greatest brightness gave.
    pub max_brightness: FileRead,
}

/// `Files` as a mathematical value.
pub struct FilesView {
    pub brightness: Result<Seq<char>, Seq<char>>,
    pub max_brightness: Result<Seq<char>, Seq<char>>,
}

impl View for Files {
    type V = FilesView;

    open spec fn view(&self) -> FilesView {
        FilesView {
            brightness: read_view(self.brightness),
            max_brightness: read_view(self.max_brightness),
        }
    }
}

/// What was found at one path in the directory of a class.
#[derive(Debug, PartialEq, Eq)]
pub struct Entry {
    pub path: String,
    /// Where the path leads to a directory, what reading the two files
    /// below it gave.
    pub files: Option<Files>,
}

/// An `Entry` as a mathematical value.
pub struct EntryView {
    pub path: Seq<char>,
    pub files: Option<FilesView>,
}

impl View for Entry {
    type V = EntryView;

    open spec fn view(&self) -> EntryView {
        EntryView {
            path: self.path@,
            files: match self.files {
                Some(files) => Some(files@),
                None => None,
            },
        }
    }
}

impl DeepView for Entry {
    type V = EntryView;

    open spec fn deep_view(&self) -> EntryView {
        self@
    }
}

/// What listing the directory of a class gave: its entries, or the message
/// of the failure.
#[derive(Debug, PartialEq, Eq)]
pub struct Listing {
    pub class: Class,
    pub entries: Result<Vec<Entry>, String>,
}

/// A `Listing` as a mathematical value.
pub struct ListingView {
    pub class: Class,
    pub entries: Result<Seq<EntryView>, Seq<char>>,
}

impl View for Listing {
    type V = ListingView;

    open spec fn view(&self) -> ListingView {
        ListingView {
            class: self.class,
            entries: match self.entries {
                Ok(entries) => Ok(entries.deep_view()),
                Err(message) => Err(message@),
            },
        }
    }
}

impl DeepView for Listing {
    type V = ListingView;

    open spec fn deep_view(&self) -> ListingView {
        self@
    }
}

/// The outcome of a search: the devices in the order of their paths, and
/// for each candidate that is no device the reason.
#[derive(Debug, PartialEq, Eq)]
pub struct Discovery {
    pub devices: Vec<Device>,
    pub rejected: Vec<Error>,
}

/// A `Discovery` as a mathematical value.
pub struct DiscoveryView {
    pub devices: Seq<DeviceView>,
    pub rejected: Seq<PathErrorView>,
}

impl View for Discovery {
    type V = DiscoveryView;

    open spec fn view(&self) -> DiscoveryView {
        DiscoveryView { devices: self.devices.deep_view(), rejected: self.rejected.deep_view() }
    }
}

/// Why a search gave no device.
#[derive(Debug, PartialEq, Eq)]
pub enum FetchDeviceError {
    /// The directory of a class could not be listed.
    IO(PathError),
    /// Nothing matched the filters, which are handed back.
    NotFound(DeviceFilters),
}

/// A `FetchDeviceError` as a mathematical value.
pub enum FetchErrorView {
    IO(PathErrorView),
    NotFound(FiltersView),
}

impl View for FetchDeviceError {
    type V = FetchErrorView;

    open spec fn view(&self) -> FetchErrorView {
        match *self {
            FetchDeviceError::IO(e) => FetchErrorView::IO(e@),
            FetchDeviceError::NotFound(filters) => FetchErrorView::NotFound(filters@),
        }
    }
}

impl From<PathError> for FetchDeviceError {
    fn from(value: PathError) -> (r: Self) {
        FetchDeviceError::IO(value)
    }
}

impl vstd::std_specs::convert::FromSpecImpl<PathError> for FetchDeviceError {
    open spec fn obeys_from_spec() -> bool {
        true
    }

    open spec fn from_spec(value: PathError) -> Self {
        FetchDeviceError::IO(value)
    }
}

/// The failure of the first listing that is wanted and could not be made.
pub open spec fn listing_failure(f: FiltersView, listings: Seq<ListingView>) -> Option<
    PathErrorView,
>
    decreases listings.len(),
{
    if listings.len() == 0 {
        None
    } else {
        match listing_failure(f, listings.drop_last()) {
            Some(e) => Some(e),
            None => match listings.last().entries {
                Err(message) => if f.wants(listings.last().class) {
                    Some(
                        PathErrorView {
                            cause: CauseView::Io(message),
                            path: listings.last().class.spec_prefix(),
                        },
                    )
                } else {
                    None
                },
                Ok(_) => None,
            },
        }
    }
}

/// An entry is a candidate when its path ends as the filters ask.
pub open spec fn is_candidate(f: FiltersView, e: EntryView) -> bool {
    f.matches(e.path)
}

/// The candidates among `entries`, in their order.
pub open spec fn candidates_in(f: FiltersView, entries: Seq<EntryView>) -> Seq<EntryView>
    decreases entries.len(),
{
    if entries.len() == 0 {
        Seq::empty()
    } else {
        let rest = candidates_in(f, entries.drop_last());
        if is_candidate(f, entries.last()) {
            rest.push(entries.last())
        } else {
            rest
        }
    }
}

/// The candidates of all wanted listings, in the order of the listings.
pub open spec fn candidates(f: FiltersView, listings: Seq<ListingView>) -> Seq<EntryView>
    decreases listings.len(),
{
    if listings.len() == 0 {
        Seq::empty()
    } else {
        let rest = candidates(f, listings.drop_last());
        match listings.last().entries {
            Ok(entries) => if f.wants(listings.last().class) {
                rest + candidates_in(f, entries)
            } else {
                rest
            },
            Err(_) => rest,
        }
    }
}

/// The order of entries: that of their paths.
pub open spec fn by_path() -> spec_fn(EntryView, EntryView) -> bool {
    |a: EntryView, b: EntryView| path_precedes(a.path, b.path)
}

/// The candidates in the order of their paths. Candidates whose paths
/// have the same components keep the order in which they were listed.
pub open spec fn arranged(f: FiltersView, listings: Seq<ListingView>) -> Seq<EntryView> {
    sorted_by(candidates(f, listings), by_path())
}

/// What a candidate turns out to be: a device, if it is a directory and
/// its files tell so.
pub open spec fn parsed(e: EntryView) -> Result<DeviceView, PathErrorView> {
    match e.files {
        Some(files) => spec_from_path(e.path, files.brightness, files.max_brightness),
        None => Err(PathErrorView { cause: CauseView::NotDirectory, path: e.path }),
    }
}

/// The devices among the candidates, in their order.
pub open spec fn devices_among(s: Seq<EntryView>) -> Seq<DeviceView>
    decreases s.len(),
{
    if s.len() == 0 {
        Seq::empty()
    } else {
        match parsed(s.last()) {
            Ok(device) => devices_among(s.drop_last()).push(device),
            Err(_) => devices_among(s.drop_last()),
        }
    }
}

/// For the candidates that are no devices the reasons, in their order.
pub open spec fn rejected_among(s: Seq<EntryView>) -> Seq<PathErrorView>
    decreases s.len(),
{
    if s.len() == 0 {
        Seq::empty()
    } else {
        match parsed(s.last()) {
            Ok(_) => rejected_among(s.drop_last()),
            Err(e) => rejected_among(s.drop_last()).push(e),
        }
    }
}

/// The outcome of a search over the given listings.
pub open spec fn spec_iter_devices(f: FiltersView, listings: Seq<ListingView>) -> Result<
    DiscoveryView,
    PathErrorView,
> {
    match listing_failure(f, listings) {
        Some(e) => Err(e),
        None => Ok(
            DiscoveryView {
                devices: devices_among(arranged(f, listings)),
                rejected: rejected_among(arranged(f, listings)),
            },
        ),
    }
}

/// All devices that a search finds, where there has to be one.
pub open spec fn spec_get_devices(f: FiltersView, listings: Seq<ListingView>) -> Result<
    Seq<DeviceView>,
    FetchErrorView,
> {
    match spec_iter_devices(f, listings) {
        Err(e) => Err(FetchErrorView::IO(e)),
        Ok(found) => if found.devices.len() > 0 {
            Ok(found.devices)
        } else {
            Err(FetchErrorView::NotFound(f))
        },
    }
}

/// The first device that a search finds.
pub open spec fn spec_get_device(f: FiltersView, listings: Seq<ListingView>) -> Result<
    DeviceView,
    FetchErrorView,
> {
    match spec_get_devices(f, listings) {
        Err(e) => Err(e),
        Ok(devices) => Ok(devices.first()),
    }
}

/// The words for a search without result.
pub open spec fn fetch_error_text(e: FetchErrorView) -> Seq<char> {
    match e {
        FetchErrorView::IO(e) => path_error_text(e),
        FetchErrorView::NotFound(f) => match f.device_name {
            Some(name) => "device with name \""@ + name + "\" not found"@,
            None => "no devices found"@,
        },
    }
}

impl Default for DeviceFilters {
    fn default() -> (r: Self)
        ensures
            r@ == (FiltersView { class: None, device_name: None }),
    {
        DeviceFilters { class: None, device_name: None }
    }
}

impl Clone for DeviceFilters {
    fn clone(&self) -> (r: Self)
        ensures
            r@ == self@,
    {
        DeviceFilters {
            class: self.class,
            device_name: match &self.device_name {
                Some(name) => Some(name.clone()),
                None => None,
            },
        }
    }
}

impl DeviceFilters {
    /// The path ends as the filters ask.
    pub fn matches(&self, path: &str) -> (r: bool)
        ensures
            r == self@.matches(path@),
    {
        match &self.device_name {
            Some(name) => ends_with(path, name.as_str()),
            None => true,
        }
    }

    /// The class is one to search.
    pub fn wants(&self, class: Class) -> (r: bool)
        ensures
            r == self@.wants(class),
    {
        match self.class {
            Some(c) => c == class,
            None => true,
        }
    }

    /// The classes whose directories are to be listed, in order.
    pub fn roots(&self) -> (r: Vec<Class>)
        ensures
            r@ == self@.roots(),
    {
        let mut r: Vec<Class> = Vec::new();
        match self.class {
            Some(c) => {
                r.push(c);
            },
            None => {
                r.push(Class::Backlight);
                r.push(Class::Leds);
            },
        }
        assert(r@ =~= self@.roots());
        r
    }

}

impl Entry {
    /// What the entry turns out to be.
    pub fn parse(&self) -> (r: Result<Device, Error>)
        ensures
            match r {
                Ok(device) => parsed(self@) == Ok::<DeviceView, PathErrorView>(device@),
                Err(e) => parsed(self@) == Err::<DeviceView, PathErrorView>(e@),
            },
            r matches Ok(device) ==> device@.consistent(),
    {
        match &self.files {
            Some(files) => Device::from_path(
                self.path.as_str(),
                &files.brightness,
                &files.max_brightness,
            ),
            None => Err(Error(PathError::new(Cause::NotDirectory, self.path.clone()))),
        }
    }
}

impl FetchDeviceError {
    /// The words for the failure.
    pub fn message(&self) -> (r: String)
        ensures
            r@ == fetch_error_text(self@),
    {
        match self {
            FetchDeviceError::IO(e) => e.message(),
            FetchDeviceError::NotFound(filters) => match &filters.device_name {
                Some(name) => {
                    let head = glue("device with name \"", name.as_str());
                    glue(head.as_str(), "\" not found")
                },
                None => String::from_str("no devices found"),
            },
        }
    }
}

/// A listing that failed among the first fails among all.
proof fn lemma_listing_failure_stays(f: FiltersView, listings: Seq<ListingView>, k: int)
    requires
        0 <= k <= listings.len(),
        listing_failure(f, listings.take(k)) is Some,
    ensures
        listing_failure(f, listings) == listing_failure(f, listings.take(k)),
    decreases listings.len(),
{
    if k < listings.len() {
        assert(listings.drop_last().take(k) =~= listings.take(k));
        lemma_listing_failure_stays(f, listings.drop_last(), k);
    } else {
        assert(listings.take(k) =~= listings);
    }
}

/// The candidates of the wanted listings in the order of the listings, or
/// the failure of the first wanted listing that could not be made.
fn collect_candidates<'a>(filters: &DeviceFilters, listings: &'a Vec<Listing>) -> (r: Result<
    Vec<&'a Entry>,
    PathError,
>)
    ensures
        match r {
            Ok(found) => {
                &&& listing_failure(filters@, listings.deep_view()) is None
                &&& found.deep_view() == candidates(filters@, listings.deep_view())
            },
            Err(e) => listing_failure(filters@, listings.deep_view()) == Some(e@),
        },
{
    let mut found: Vec<&Entry> = Vec::new();
    let ghost all = listings.deep_view();
    let mut k: usize = 0;
    assert(found.deep_view() =~= candidates(filters@, all.take(0)));
    while k < listings.len()
        invariant
            k <= listings.len(),
            all == listings.deep_view(),
            listing_failure(filters@, all.take(k as int)) is None,
            found.deep_view() == candidates(filters@, all.take(k as int)),
        decreases listings.len() - k,
    {
        let listing = &listings[k];
        proof {
            assert(all.take(k + 1).drop_last() =~= all.take(k as int));
            assert(all.take(k + 1).last() == listing@);
        }
        if filters.wants(listing.class) {
            match &listing.entries {
                Err(message) => {
                    proof {
                        lemma_listing_failure_stays(filters@, all, k + 1);
                    }
                    return Err(
                        PathError::new(
                            Cause::Io(message.clone()),
                            String::from_str(listing.class.prefix()),
                        ),
                    );
                },
                Ok(entries) => {
                    let ghost views = entries.deep_view();
                    let ghost before = found.deep_view();
                    let mut i: usize = 0;
                    assert(found.deep_view() =~= before + candidates_in(filters@, views.take(0)));
                    while i < entries.len()
                        invariant
                            i <= entries.len(),
                            views == entries.deep_view(),
                            found.deep_view() == before + candidates_in(
                                filters@,
                                views.take(i as int),
                            ),
                        decreases entries.len() - i,
                    {
                        let entry = &entries[i];
                        proof {
                            assert(views.take(i + 1).drop_last() =~= views.take(i as int));
                            assert(views.take(i + 1).last() == entry@);
                        }
                        let ghost old_found = found.deep_view();
                        if filters.matches(entry.path.as_str()) {
                            found.push(entry);
                            assert(found.deep_view() =~= old_found.push(entry@));
                        }
                        assert(found.deep_view() =~= before + candidates_in(
                            filters@,
                            views.take(i + 1),
                        ));
                        i = i + 1;
                    }
                    assert(views.take(i as int) =~= views);
                },
            }
        }
        k = k + 1;
    }
    assert(all.take(k as int) =~= all);
    Ok(found)
}

/// The devices that a search finds in the given listings, in the order of
/// their paths, and the reasons for which candidates were passed over. The
/// search fails where a directory that it has to list could not be listed.
pub fn iter_devices(filters: &DeviceFilters, listings: &Vec<Listing>) -> (r: Result<
    Discovery,
    PathError,
>)
    ensures
        match r {
            Ok(found) => spec_iter_devices(filters@, listings.deep_view()) == Ok::<
                DiscoveryView,
                PathErrorView,
            >(found@),
            Err(e) => spec_iter_devices(filters@, listings.deep_view()) == Err::<
                DiscoveryView,
                PathErrorView,
            >(e@),
        },
{
    let found = match collect_candidates(filters, listings) {
        Ok(found) => found,
        Err(e) => {
            return Err(e);
        },
    };
    let ghost views = found.deep_view();
    let mut keys: Vec<Vec<Vec<char>>> = Vec::new();
    let mut j: usize = 0;
    while j < found.len()
        invariant
            j <= found.len(),
            keys.len() == j,
            views == found.deep_view(),
            forall|i: int| 0 <= i < j ==> texts((#[trigger] keys[i])@) == components(views[i].path),
        decreases found.len() - j,
    {
        keys.push(components_of(found[j].path.as_str()));
        j = j + 1;
    }
    let order = sort_positions(&keys);
    let ghost pick = |i: int| views[i];
    let ghost arr = arranged(filters@, listings.deep_view());
    proof {
        let n = keys.len() as nat;
        assert forall|a: int, b: int|
            0 <= a < positions(n).len() && 0 <= b < positions(n).len() implies by_components_at(
            keys@,
        )(#[trigger] positions(n)[a], #[trigger] positions(n)[b]) == by_path()(
            pick(positions(n)[a]),
            pick(positions(n)[b]),
        ) by {
            assert(texts(keys[a]@) == components(views[a].path));
            assert(texts(keys[b]@) == components(views[b].path));
        }
        lemma_sorted_by_map(positions(n), pick, by_components_at(keys@), by_path());
        assert(positions(n).map_values(pick) =~= views);
        assert(arr == as_positions(order@).map_values(pick));
    }
    let mut devices: Vec<Device> = Vec::new();
    let mut rejected: Vec<Error> = Vec::new();
    let mut k: usize = 0;
    assert(devices.deep_view() =~= devices_among(arr.take(0)));
    assert(rejected.deep_view() =~= rejected_among(arr.take(0)));
    while k < order.len()
        invariant
            k <= order.len(),
            order.len() == found.len(),
            forall|i: int| 0 <= i < order.len() ==> (#[trigger] order[i]) < found.len(),
            views == found.deep_view(),
            arr == as_positions(order@).map_values(|i: int| views[i]),
            devices.deep_view() == devices_among(arr.take(k as int)),
            rejected.deep_view() == rejected_among(arr.take(k as int)),
        decreases order.len() - k,
    {
        let entry = found[order[k]];
        proof {
            assert(arr.take(k + 1).drop_last() =~= arr.take(k as int));
            assert(arr.take(k + 1).last() == entry@);
        }
        let ghost old_devices = devices.deep_view();
        let ghost old_rejected = rejected.deep_view();
        match entry.parse() {
            Ok(device) => {
                devices.push(device);
                assert(devices.deep_view() =~= old_devices.push(device@));
            },
            Err(e) => {
                rejected.push(e);
                assert(rejected.deep_view() =~= old_rejected.push(e@));
            },
        }
        k = k + 1;
    }
    assert(arr.take(k as int) =~= arr);
    Ok(Discovery { devices, rejected })
}

impl Discovery {
    /// All devices found, where there has to be one.
    pub fn all(self, filters: &DeviceFilters) -> (r: Result<Vec<Device>, FetchDeviceError>)
        ensures
            match r {
                Ok(devices) => self@.devices.len() > 0 && devices.deep_view() == self@.devices,
                Err(e) => self@.devices.len() == 0 && e@ == FetchErrorView::NotFound(filters@),
            },
    {
        if self.devices.len() > 0 {
            Ok(self.devices)
        } else {
            Err(FetchDeviceError::NotFound(filters.clone()))
        }
    }

    /// The first device found.
    pub fn first(self, filters: &DeviceFilters) -> (r: Result<Device, FetchDeviceError>)
        ensures
            match r {
                Ok(device) => self@.devices.len() > 0 && device@ == self@.devices.first(),
                Err(e) => self@.devices.len() == 0 && e@ == FetchErrorView::NotFound(filters@),
            },
    {
        let mut devices = self.devices;
        if devices.len() > 0 {
            let ghost before = devices.deep_view();
            let device = devices.swap_remove(0);
            assert(device@ == before[0]);
            Ok(device)
        } else {
            Err(FetchDeviceError::NotFound(filters.clone()))
        }
    }
}

/// All devices that match the filters, in the order of their paths. There
/// has to be one.
pub fn get_devices(filters: &DeviceFilters, listings: &Vec<Listing>) -> (r: Result<
    Vec<Device>,
    FetchDeviceError,
>)
    ensures
        match r {
            Ok(devices) => spec_get_devices(filters@, listings.deep_view()) == Ok::<
                Seq<DeviceView>,
                FetchErrorView,
            >(devices.deep_view()),
            Err(e) => spec_get_devices(filters@, listings.deep_view()) == Err::<
                Seq<DeviceView>,
                FetchErrorView,
            >(e@),
        },
{
    match iter_devices(filters, listings) {
        Err(e) => Err(FetchDeviceError::from(e)),
        Ok(found) => found.all(filters),
    }
}

/// The first device that matches the filters, in the order of the paths.
pub fn get_device(filters: &DeviceFilters, listings: &Vec<Listing>) -> (r: Result<
    Device,
    FetchDeviceError,
>)
    ensures
        match r {
            Ok(device) => spec_get_device(filters@, listings.deep_view()) == Ok::<
                DeviceView,
                FetchErrorView,
            >(device@),
            Err(e) => spec_get_device(filters@, listings.deep_view()) == Err::<
                DeviceView,
                FetchErrorView,
            >(e@),
        },
{
    match iter_devices(filters, listings) {
        Err(e) => Err(FetchDeviceError::from(e)),
        Ok(found) => found.first(filters),
    }
}

/// The order of devices: that of their paths.
pub open spec fn by_device_path() -> spec_fn(DeviceView, DeviceView) -> bool {
    |a: DeviceView, b: DeviceView| path_precedes(a.path, b.path)
}

/// The order of paths makes an order of entries.
pub proof fn lemma_by_path_is_an_order()
    ensures
        is_total(by_path()),
        is_transitive(by_path()),
{
    assert forall|x: EntryView, y: EntryView| #[trigger] by_path()(x, y) || by_path()(y, x) by {
        lemma_path_precedes(x.path, y.path, x.path);
    }
    assert forall|x: EntryView, y: EntryView, z: EntryView| #[trigger]
        by_path()(x, y) && #[trigger] by_path()(y, z) implies by_path()(x, z) by {
        lemma_path_precedes(x.path, y.path, z.path);
    }
}

/// Every candidate is an entry that the filters let pass.
pub proof fn lemma_candidates_in(f: FiltersView, entries: Seq<EntryView>, i: int)
    requires
        0 <= i < candidates_in(f, entries).len(),
    ensures
        is_candidate(f, candidates_in(f, entries)[i]),
        entries.contains(candidates_in(f, entries)[i]),
    decreases entries.len(),
{
    if entries.len() > 0 {
        let rest = candidates_in(f, entries.drop_last());
        if i < rest.len() {
            lemma_candidates_in(f, entries.drop_last(), i);
            let head = entries.drop_last();
            let j = choose|j: int| 0 <= j < head.len() && head[j] == rest[i];
            assert(entries[j] == rest[i]);
        } else {
            assert(entries[entries.len() - 1] == entries.last());
        }
    }
}

/// Every candidate of the listings has a path that ends as the filters
/// ask.
pub proof fn lemma_candidates(f: FiltersView, listings: Seq<ListingView>, i: int)
    requires
        0 <= i < candidates(f, listings).len(),
    ensures
        is_candidate(f, candidates(f, listings)[i]),
    decreases listings.len(),
{
    if listings.len() > 0 {
        let rest = candidates(f, listings.drop_last());
        if i < rest.len() {
            lemma_candidates(f, listings.drop_last(), i);
        } else {
            match listings.last().entries {
                Ok(entries) => {
                    lemma_candidates_in(f, entries, i - rest.len());
                },
                Err(_) => {},
            }
        }
    }
}

/// Each device that a sequence of candidates gives is what one of them
/// turned out to be, and the devices keep the order of the candidates.
pub proof fn lemma_devices_among(s: Seq<EntryView>, i: int) -> (j: int)
    requires
        0 <= i < devices_among(s).len(),
    ensures
        0 <= j < s.len(),
        parsed(s[j]) == Ok::<DeviceView, PathErrorView>(devices_among(s)[i]),
        devices_among(s.take(j)).len() == i,
    decreases s.len(),
{
    let head = s.drop_last();
    if i < devices_among(head).len() {
        let j = lemma_devices_among(head, i);
        assert(head.take(j) =~= s.take(j));
        j
    } else {
        assert(s.take(s.len() - 1) =~= head);
        s.len() - 1
    }
}

/// Candidates in the order of their paths give devices in the order of
/// their paths.
pub proof fn lemma_devices_keep_order(s: Seq<EntryView>)
    requires
        is_ordered(s, by_path()),
    ensures
        is_ordered(devices_among(s), by_device_path()),
{
    let d = devices_among(s);
    assert forall|a: int, b: int| 0 <= a < b < d.len() implies by_device_path()(
        #[trigger] d[a],
        #[trigger] d[b],
    ) by {
        let ja = lemma_devices_among(s, a);
        let jb = lemma_devices_among(s, b);
        if ja >= jb {
            lemma_devices_among_grows(s, jb, ja);
        }
        assert(by_path()(s[ja], s[jb]));
    }
}

proof fn lemma_devices_among_grows(s: Seq<EntryView>, j: int, k: int)
    requires
        0 <= j <= k <= s.len(),
    ensures
        devices_among(s.take(j)).len() <= devices_among(s.take(k)).len(),
    decreases k - j,
{
    if j < k {
        lemma_devices_among_grows(s, j, k - 1);
        assert(s.take(k).drop_last() =~= s.take(k - 1));
    }
}

/// What a candidate turns out to be is among the devices, if it is a
/// device, and among the rejected with its reason, if it is none.
pub proof fn lemma_devices_among_has(s: Seq<EntryView>, j: int)
    requires
        0 <= j < s.len(),
    ensures
        match parsed(s[j]) {
            Ok(device) => devices_among(s).contains(device),
            Err(e) => rejected_among(s).contains(e),
        },
    decreases s.len(),
{
    let head = s.drop_last();
    if j < s.len() - 1 {
        lemma_devices_among_has(head, j);
        assert(head[j] == s[j]);
        match parsed(s[j]) {
            Ok(device) => {
                let k = choose|k: int|
                    0 <= k < devices_among(head).len() && devices_among(head)[k] == device;
                assert(devices_among(s)[k] == device);
            },
            Err(e) => {
                let k = choose|k: int|
                    0 <= k < rejected_among(head).len() && rejected_among(head)[k] == e;
                assert(rejected_among(s)[k] == e);
            },
        }
    } else {
        match parsed(s[j]) {
            Ok(device) => {
                assert(devices_among(s)[devices_among(s).len() - 1] == device);
            },
            Err(e) => {
                assert(rejected_among(s)[rejected_among(s).len() - 1] == e);
            },
        }
    }
}

/// Of every candidate there is a device or a reason.
pub proof fn lemma_devices_and_rejected(s: Seq<EntryView>)
    ensures
        devices_among(s).len() + rejected_among(s).len() == s.len(),
    decreases s.len(),
{
    if s.len() > 0 {
        lemma_devices_and_rejected(s.drop_last());
    }
}

/// What a search finds. The devices come in the order of their paths, so
/// the first is the one whose path comes before all others. The path of
/// each device ends as the filters ask, its name is the last name of its
/// path, and its brightness is within its range. Each candidate is among
/// the devices, if it turns out to be one, or among the rejected.
pub proof fn lemma_discovery(f: FiltersView, listings: Seq<ListingView>)
    requires
        spec_iter_devices(f, listings) is Ok,
    ensures
        ({
            let found = spec_iter_devices(f, listings)->Ok_0;
            &&& is_ordered(found.devices, by_device_path())
            &&& forall|i: int|
                0 <= i < found.devices.len() ==> {
                    &&& f.matches((#[trigger] found.devices[i]).path)
                    &&& spec_file_name(found.devices[i].path) == Some(found.devices[i].name)
                    &&& found.devices[i].consistent()
                }
            &&& found.devices.len() + found.rejected.len() == candidates(f, listings).len()
            &&& forall|k: int|
                0 <= k < candidates(f, listings).len() ==> match parsed(
                    #[trigger] candidates(f, listings)[k],
                ) {
                    Ok(device) => found.devices.contains(device),
                    Err(e) => found.rejected.contains(e),
                }
        }),
{
    let found = spec_iter_devices(f, listings)->Ok_0;
    let c = candidates(f, listings);
    let s = arranged(f, listings);
    lemma_by_path_is_an_order();
    lemma_sorted_by(c, by_path());
    lemma_devices_keep_order(s);
    lemma_devices_and_rejected(s);
    assert forall|i: int| 0 <= i < found.devices.len() implies {
        &&& f.matches((#[trigger] found.devices[i]).path)
        &&& spec_file_name(found.devices[i].path) == Some(found.devices[i].name)
        &&& found.devices[i].consistent()
    } by {
        broadcast use vstd::seq_lib::group_to_multiset_ensures;

        let j = lemma_devices_among(s, i);
        assert(s.to_multiset().count(s[j]) > 0);
        assert(c.contains(s[j]));
        let k = choose|k: int| 0 <= k < c.len() && c[k] == s[j];
        lemma_candidates(f, listings, k);
    }
    assert forall|k: int| 0 <= k < c.len() implies match parsed(#[trigger] c[k]) {
        Ok(device) => found.devices.contains(device),
        Err(e) => found.rejected.contains(e),
    } by {
        broadcast use vstd::seq_lib::group_to_multiset_ensures;

        assert(c.to_multiset().count(c[k]) > 0);
        assert(s.contains(c[k]));
        let j = choose|j: int| 0 <= j < s.len() && s[j] == c[k];
        lemma_devices_among_has(s, j);
    }
}

/// The first device is the one whose path comes before those of all
/// devices found, and there is none exactly when no device is found.
pub proof fn lemma_first_device(f: FiltersView, listings: Seq<ListingView>)
    requires
        spec_iter_devices(f, listings) matches Ok(found),
    ensures
        ({
            let found = spec_iter_devices(f, listings)->Ok_0;
            match spec_get_device(f, listings) {
                Ok(first) => {
                    &&& found.devices.len() > 0
                    &&& first == found.devices[0]
                    &&& forall|i: int|
                        0 <= i < found.devices.len() ==> path_precedes(
                            first.path,
                            (#[trigger] found.devices[i]).path,
                        )
                },
                Err(e) => found.devices.len() == 0 && e == FetchErrorView::NotFound(f),
            }
        }),
{
    let found = spec_iter_devices(f, listings)->Ok_0;
    lemma_discovery(f, listings);
    if found.devices.len() > 0 {
        let first = found.devices[0];
        assert forall|i: int| 0 <= i < found.devices.len() implies path_precedes(
            first.path,
            (#[trigger] found.devices[i]).path,
        ) by {
            if i == 0 {
                lemma_path_precedes(first.path, first.path, first.path);
            } else {
                assert(by_device_path()(found.devices[0], found.devices[i]));
            }
        }
    }
}

/// The order in which the directories hand out their entries does not
/// matter. Two searches whose listings hold the same candidates, no two of
/// them under paths with the same components, find the same devices in the
/// same order, and so the same first device.
pub proof fn lemma_enumeration_order(f: FiltersView, a: Seq<ListingView>, b: Seq<ListingView>)
    requires
        listing_failure(f, a) is None,
        listing_failure(f, b) is None,
        candidates(f, a).to_multiset() == candidates(f, b).to_multiset(),
        is_distinct(candidates(f, a), by_path()),
    ensures
        spec_iter_devices(f, a) == spec_iter_devices(f, b),
        spec_get_devices(f, a) == spec_get_devices(f, b),
        spec_get_device(f, a) == spec_get_device(f, b),
{
    lemma_by_path_is_an_order();
    lemma_sorted_by_any_order(candidates(f, a), candidates(f, b), by_path());
}

} // verus!
