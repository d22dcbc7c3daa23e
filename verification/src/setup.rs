//! The set up tool's messages, the ZIP lookup's reply, and how the programs start.

use vstd::prelude::*;
use crate::idle::Place;
use crate::library::text_of;
use crate::text::{is_real, reads_as_real, same_text, texts};

verus! {

// ---------------------------------------------------------------- JSON

/// The text that `serde_json` finds under a key of a JSON object. None where the text is no JSON,
/// has no such key, or something else than text under it.
pub uninterp spec fn json_text(json: Seq<char>, key: Seq<char>) -> Option<Seq<char>>;

/// `serde_json::from_str` into a `Value`, then `get` and `as_str`: a function of the two texts
/// alone.
#[verifier::external_body]
fn read_text(json: &str, key: &str) -> (r: Option<String>)
    ensures
        text_of(r) == json_text(json@, key@),
{
    serde_json::from_str::<serde_json::Value>(json).ok()?.get(key)?.as_str().map(|s| s.to_owned())
}

/// The text that `serde_json` finds under a key of an object in a list, the list standing under a
/// key of its own. None where any of it is missing.
pub uninterp spec fn json_item_text(
    json: Seq<char>,
    list: Seq<char>,
    i: usize,
    key: Seq<char>,
) -> Option<Seq<char>>;

/// `serde_json::from_str` into a `Value`, then `get` for the list, the item and the key, and
/// `as_str`: a function of the arguments alone.
#[verifier::external_body]
fn read_item_text(json: &str, list: &str, i: usize, key: &str) -> (r: Option<String>)
    ensures
        text_of(r) == json_item_text(json@, list@, i, key@),
{
    let v = serde_json::from_str::<serde_json::Value>(json).ok()?;
    v.get(list)?.get(i)?.get(key)?.as_str().map(|s| s.to_owned())
}

// ---------------------------------------------------------------- ZIP lookup

/// Where a ZIP code is looked up (free, no key).
pub open spec fn lookup_address(zip: Seq<char>) -> Seq<char> {
    "https://api.zippopotam.us/us/"@ + zip
}

/// Where a ZIP code is looked up.
pub fn zip_url(zip: &str) -> (r: String)
    ensures
        r@ == lookup_address(zip@),
{
    let mut s = "https://api.zippopotam.us/us/".to_owned();
    s.append(zip);
    s
}

/// The text is there and is written the way a real number is.
pub open spec fn is_coordinate(o: Option<Seq<char>>) -> bool {
    o matches Some(s) && is_real(s)
}

/// A place, as far as a reply tells of it: all four texts, two of them numbers, or none of it
/// counts.
pub open spec fn is_place(
    r: Option<Place>,
    lat: Option<Seq<char>>,
    lon: Option<Seq<char>>,
    city: Option<Seq<char>>,
    state: Option<Seq<char>>,
) -> bool {
    match r {
        Some(p) => {
            &&& lat == Some(p.lat@) && is_coordinate(lat)
            &&& lon == Some(p.lon@) && is_coordinate(lon)
            &&& city is Some && state is Some
            &&& p.name@ == city->0 + ", "@ + state->0
        },
        None => !is_coordinate(lat) || !is_coordinate(lon) || city is None || state is None,
    }
}

/// The place that the four texts of a reply tell of: "City, ST" and where it is.
pub fn place_of(
    lat: Option<String>,
    lon: Option<String>,
    city: Option<String>,
    state: Option<String>,
) -> (r: Option<Place>)
    ensures
        is_place(r, text_of(lat), text_of(lon), text_of(city), text_of(state)),
{
    match (lat, lon, city, state) {
        (Some(lat), Some(lon), Some(city), Some(state)) => {
            if !reads_as_real(lat.as_str()) || !reads_as_real(lon.as_str()) {
                return None;
            }
            let mut name = city;
            name.append(", ");
            name.append(state.as_str());
            Some(Place { lat, lon, name })
        },
        _ => None,
    }
}

/// ZIP reply -> (lat, lon, "City, ST"), from the first place that it lists. The two numbers are
/// kept as they are written.
pub fn geocode_zip(body: &str) -> (r: Option<Place>)
    ensures
        is_place(
            r,
            json_item_text(body@, "places"@, 0, "latitude"@),
            json_item_text(body@, "places"@, 0, "longitude"@),
            json_item_text(body@, "places"@, 0, "place name"@),
            json_item_text(body@, "places"@, 0, "state abbreviation"@),
        ),
{
    let lat = read_item_text(body, "places", 0, "latitude");
    let lon = read_item_text(body, "places", 0, "longitude");
    let city = read_item_text(body, "places", 0, "place name");
    let state = read_item_text(body, "places", 0, "state abbreviation");
    place_of(lat, lon, city, state)
}

// ---------------------------------------------------------------- the set up tool's page

/// What the page asks of the set up tool.
pub enum Request {
    /// Send settings and lineup.
    Load,
    /// Write them; then start the tuner, if asked.
    Save { launch: bool },
    Quit,
    /// Let a folder be picked for a field, starting in a folder.
    Browse { field: String, start: String },
    Nothing,
}

pub open spec fn or_empty(o: Option<Seq<char>>) -> Seq<char> {
    match o {
        Some(s) => s,
        None => Seq::empty(),
    }
}

/// `r` is what a message asks with these texts in it.
pub open spec fn asks(
    r: Request,
    cmd: Option<Seq<char>>,
    field: Option<Seq<char>>,
    start: Option<Seq<char>>,
) -> bool {
    let c = or_empty(cmd);
    match r {
        Request::Load => c == "load"@,
        Request::Save { launch } => if launch {
            c == "launch"@
        } else {
            c == "save"@
        },
        Request::Quit => c == "quit"@,
        Request::Browse { field: f, start: s } => c == "browse"@ && f@ == or_empty(field) && s@
            == or_empty(start),
        Request::Nothing => c != "load"@ && c != "save"@ && c != "launch"@ && c != "quit"@ && c
            != "browse"@,
    }
}

fn text_or_empty(o: Option<String>) -> (r: String)
    ensures
        r@ == or_empty(text_of(o)),
{
    match o {
        Some(s) => s,
        None => {
            let s = String::new();
            assert(s@ =~= Seq::empty());
            s
        },
    }
}

/// What a message asks with these texts in it.
pub fn request_of(cmd: Option<String>, field: Option<String>, start: Option<String>) -> (r: Request)
    ensures
        asks(r, text_of(cmd), text_of(field), text_of(start)),
{
    let c = text_or_empty(cmd);
    if same_text(c.as_str(), "load") {
        Request::Load
    } else if same_text(c.as_str(), "save") {
        Request::Save { launch: false }
    } else if same_text(c.as_str(), "launch") {
        Request::Save { launch: true }
    } else if same_text(c.as_str(), "quit") {
        Request::Quit
    } else if same_text(c.as_str(), "browse") {
        Request::Browse { field: text_or_empty(field), start: text_or_empty(start) }
    } else {
        Request::Nothing
    }
}

/// What a message of the page asks.
pub fn request(msg: &str) -> (r: Request)
    ensures
        asks(
            r,
            json_text(msg@, "cmd"@),
            json_text(msg@, "field"@),
            json_text(msg@, "start"@),
        ),
{
    let cmd = read_text(msg, "cmd");
    let field = read_text(msg, "field");
    let start = read_text(msg, "start");
    request_of(cmd, field, start)
}

/// No two requests answer the same message.
pub proof fn requests_are_distinct(
    a: Request,
    b: Request,
    cmd: Option<Seq<char>>,
    field: Option<Seq<char>>,
    start: Option<Seq<char>>,
)
    requires
        asks(a, cmd, field, start),
        asks(b, cmd, field, start),
    ensures
        a is Load <==> b is Load,
        a is Save <==> b is Save,
        a is Quit <==> b is Quit,
        a is Browse <==> b is Browse,
        a is Save ==> a->launch == b->launch,
{
    reveal_strlit("load");
    reveal_strlit("save");
    reveal_strlit("launch");
    reveal_strlit("quit");
    reveal_strlit("browse");
    let c = or_empty(cmd);
    if c == "load"@ {
        assert(c[0] == 'l' && c.len() == 4);
    }
    if c == "save"@ {
        assert(c[0] == 's');
    }
    if c == "launch"@ {
        assert(c[0] == 'l' && c.len() == 6);
    }
    if c == "quit"@ {
        assert(c[0] == 'q');
    }
    if c == "browse"@ {
        assert(c[0] == 'b');
    }
}

/// The tuner is started once both files are written and the page asked for it.
pub fn launches(written: bool, launch: bool) -> (r: bool)
    ensures
        r == (written && launch),
{
    written && launch
}

// ---------------------------------------------------------------- starting up

/// What a launch of the tuner leads to.
#[derive(Clone, Copy, PartialEq, Eq, Structural, Debug)]
pub enum Start {
    /// Another one is running.
    Leave,
    /// First run (no settings file yet): hand over to the set up wizard instead of guessing.
    Wizard,
    Run,
}

/// Plain launches are single-instance and need settings; runs with arguments may overlap a
/// session.
pub fn tuner_start(arguments: bool, sole: bool, has_settings: bool) -> (r: Start)
    ensures
        r == (if arguments {
            Start::Run
        } else if !sole {
            Start::Leave
        } else if !has_settings {
            Start::Wizard
        } else {
            Start::Run
        }),
{
    if arguments {
        Start::Run
    } else if !sole {
        Start::Leave
    } else if !has_settings {
        Start::Wizard
    } else {
        Start::Run
    }
}

/// The set up tool goes step by step on the first run, or when asked.
pub fn is_wizard(args: &Vec<String>, has_settings: bool) -> (r: bool)
    ensures
        r == (texts(args@).contains("--wizard"@) || !has_settings),
{
    crate::args::has_flag(args, "--wizard") || !has_settings
}

/// The local WeatherStar server is started where there is a page and a checkout to run.
pub fn starts_server(page: bool, weather_dir: &str, has_script: bool) -> (r: bool)
    ensures
        r == (page && weather_dir@.len() > 0 && has_script),
{
    page && !weather_dir.is_empty() && has_script
}

/// What the loader thread has to say.
#[derive(Clone, Copy, PartialEq, Eq, Structural, Debug)]
pub enum Progress {
    Status,
    Done,
    /// It failed; the set up tool may be offered.
    Fail { offer: bool },
    /// Nothing for now.
    Quiet,
    /// It is gone.
    Gone,
}

/// What the loading screen does about it.
#[derive(Clone, Copy, PartialEq, Eq, Structural, Debug)]
pub enum Step {
    /// Show the new status, look again.
    Show,
    /// Keep what was loaded, look again.
    Keep,
    /// Say so, perhaps start the set up tool, and leave.
    Complain,
    /// Leave: the loader died, and has shown why.
    Leave,
    /// Wait.
    Wait,
}

/// What the loading screen does about what the loader says, `done` being loaded already.
pub fn boot_step(p: Progress, done: bool) -> (r: Step)
    ensures
        r == (match p {
            Progress::Status => Step::Show,
            Progress::Done => Step::Keep,
            Progress::Fail { offer } => Step::Complain,
            Progress::Quiet => Step::Wait,
            Progress::Gone => if done {
                Step::Wait
            } else {
                Step::Leave
            },
        }),
{
    match p {
        Progress::Status => Step::Show,
        Progress::Done => Step::Keep,
        Progress::Fail { offer } => Step::Complain,
        Progress::Quiet => Step::Wait,
        Progress::Gone => if done {
            Step::Wait
        } else {
            Step::Leave
        },
    }
}

/// The set up tool is started when it was offered and the offer taken.
pub fn opens_setup(offer: bool, answer: bool) -> (r: bool)
    ensures
        r == (answer && offer),
{
    answer && offer
}

/// A frame of the loading screen itself is dumped: asked for before the loading was done.
pub fn boot_shot(shot_ms: u32, done: bool, elapsed: i64) -> (r: bool)
    requires
        0 <= elapsed,
    ensures
        r == (shot_ms > 0 && !done && elapsed >= shot_ms * 1000),
{
    shot_ms > 0 && !done && elapsed >= shot_ms as i64 * 1000
}

/// The event loop has not come round for more than 40 ms: it is stuck in a window drag, and a
/// repaint keeps the picture moving.
pub fn is_stuck(now_ms: u64, beat_ms: u64) -> (r: bool)
    ensures
        r == (now_ms - beat_ms > 40),
{
    now_ms > beat_ms && now_ms - beat_ms > 40
}

/// A reply with two real numbers, a city and a state is a place: each number is what it was in the
/// reply, and the name begins with the city and ends in the state.
pub proof fn a_whole_reply_is_a_place(
    r: Option<Place>,
    lat: Seq<char>,
    lon: Seq<char>,
    city: Seq<char>,
    state: Seq<char>,
)
    requires
        is_place(r, Some(lat), Some(lon), Some(city), Some(state)),
    ensures
        is_real(lat) && is_real(lon) <==> r is Some,
        r matches Some(p) ==> p.lat@ == lat && p.lon@ == lon && p.name@.take(city.len() as int)
            == city && p.name@.skip(p.name@.len() - state.len()) == state && p.name@.len()
            == city.len() + 2 + state.len(),
{
    reveal_strlit(", ");
    if let Some(p) = r {
        assert(p.name@.take(city.len() as int) =~= city);
        assert(p.name@.skip(p.name@.len() - state.len()) =~= state);
    }
}

/// A reply that lacks one of the four texts is no place.
pub proof fn a_reply_with_a_gap_is_no_place(
    r: Option<Place>,
    lat: Option<Seq<char>>,
    lon: Option<Seq<char>>,
    city: Option<Seq<char>>,
    state: Option<Seq<char>>,
)
    requires
        is_place(r, lat, lon, city, state),
    ensures
        lat is None || lon is None || city is None || state is None ==> r is None,
{
}

/// Each command of the page is answered by what it says, and a folder is picked for the field that
/// is named, from the folder that is.
pub proof fn commands_say_what_is_done(
    r: Request,
    cmd: Option<Seq<char>>,
    field: Seq<char>,
    start: Seq<char>,
)
    requires
        asks(r, cmd, Some(field), Some(start)),
    ensures
        cmd == Some("load"@) ==> r is Load,
        cmd == Some("save"@) ==> r is Save && !r->launch,
        cmd == Some("launch"@) ==> r is Save && r->launch,
        cmd == Some("quit"@) ==> r is Quit,
        cmd == Some("browse"@) ==> r is Browse && r->field@ == field && r->start@ == start,
        cmd is None ==> r is Nothing,
{
    reveal_strlit("load");
    reveal_strlit("save");
    reveal_strlit("launch");
    reveal_strlit("quit");
    reveal_strlit("browse");
    let c = or_empty(cmd);
    if c == "load"@ {
        assert(c[0] == 'l' && c.len() == 4);
    }
    if c == "save"@ {
        assert(c[0] == 's' && c.len() == 4);
    }
    if c == "launch"@ {
        assert(c[0] == 'l' && c.len() == 6);
    }
    if c == "quit"@ {
        assert(c[0] == 'q' && c.len() == 4);
    }
    if c == "browse"@ {
        assert(c[0] == 'b' && c.len() == 6);
    }
}

/// A ZIP code is looked up under an address that ends in it, behind a slash.
pub proof fn a_zip_code_ends_its_address(zip: Seq<char>)
    ensures
        lookup_address(zip).skip(lookup_address(zip).len() - zip.len()) == zip,
        lookup_address(zip).len() > zip.len(),
        lookup_address(zip)[lookup_address(zip).len() - zip.len() - 1] == '/',
{
    reveal_strlit("https://api.zippopotam.us/us/");
    let a = lookup_address(zip);
    assert(a.skip(a.len() - zip.len()) =~= zip);
}

} // verus!
