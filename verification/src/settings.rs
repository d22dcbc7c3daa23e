//! Persisted settings (tuner_settings.json) and the optional channel lineup (tuner_lineup.json),
//! shared by the tuner and its set up tool.
//!
//! The picture controls are whole millionths: 45_000 is a curvature of 0.045.

use vstd::prelude::*;
use vstd::utf8::encode_utf8;
use crate::library::{clean_name, cleaned, text_of};
use crate::num::wrap;
use crate::order::{
    key_texts, lemma_permuted_numbers, numbers, sort_by, sort_indices, sorting_is_stable, text_lt,
};
use crate::text::{
    a_name_stands_in_its_folder, all_digits, chars_of, decimal, decimal_padded,
    decimals_read_back, digits_value, eq_ignore_ascii_case, join, joined,
    likeness_is_about_letters, lowercase, nonblank, occurs_at, padded_decimals_read_back, parse,
    parsed, pieces, pieces_not_empty, push_decimal, same_ignoring_case, split, split_nonblank,
    string_range, texts, the_last_piece_is_the_rest, to_lowercase, to_uppercase, uppercase,
    zero_padded,
};

verus! {

pub const LOGO_DIRS: &'static str = "";

pub const BUMPER_DIR: &'static str = "";

pub const MUSIC_DIR: &'static str = "";

/// Edited from the setup menu (S) and by the set up tool.
pub struct Settings {
    pub crt: bool,
    pub crt_curve: i32,  // barrel distortion 0..0.12
    pub crt_scan: i32,  // scanline depth 0..1
    pub crt_noise: i32,  // interference 0..0.1
    pub crt_vignette: i32,  // corner darkening 0..0.5
    pub overscan: i32,  // -0.10 (underscan: picture smaller) .. +0.10 (cropped like a real set)
    pub aspect: usize,  // index into the aspects
    pub hud: usize,  // index into the HUD colours
    pub logos: bool,  // network bug in the corner
    pub clocks: bool,  // small clock, morning-news style
    pub ticker: bool,  // lower-third news crawl
    pub bumpers: bool,  // station idents between programs (applies at startup)
    pub snow: bool,  // analog snow between channels (off = digital black)
    pub music: bool,  // hold music on the Prevue channel
    pub clock_24h: bool,
    pub logo_dirs: String,  // ';'-separated folders of PNG logos
    pub bumper_dir: String,  // folder tree of idents, one subfolder per network
    pub weather_dir: String,  // WeatherStar checkout to run (empty = don't start one)
    pub weather_url: String,  // where the WeatherStar page is served (empty = no weather channel)
    pub weather_zip: String,  // US ZIP typed in the menu; geocoded into the fields below
    pub weather_location: String,
    pub weather_lat: String,  // in decimal, as the page's address writes it
    pub weather_lon: String,
    pub content_dir: String,  // library folder (a bare argument overrides)
    pub channels: usize,  // auto-dealt channel count (--channels overrides)
    pub music_dir: String,  // hold music (--music overrides)
}

/// What the settings say.
pub struct SettingsView {
    pub crt: bool,
    pub crt_curve: i32,
    pub crt_scan: i32,
    pub crt_noise: i32,
    pub crt_vignette: i32,
    pub overscan: i32,
    pub aspect: usize,
    pub hud: usize,
    pub logos: bool,
    pub clocks: bool,
    pub ticker: bool,
    pub bumpers: bool,
    pub snow: bool,
    pub music: bool,
    pub clock_24h: bool,
    pub logo_dirs: Seq<char>,
    pub bumper_dir: Seq<char>,
    pub weather_dir: Seq<char>,
    pub weather_url: Seq<char>,
    pub weather_zip: Seq<char>,
    pub weather_location: Seq<char>,
    pub weather_lat: Seq<char>,
    pub weather_lon: Seq<char>,
    pub content_dir: Seq<char>,
    pub channels: usize,
    pub music_dir: Seq<char>,
}

impl View for Settings {
    type V = SettingsView;

    open spec fn view(&self) -> SettingsView {
        SettingsView {
            crt: self.crt,
            crt_curve: self.crt_curve,
            crt_scan: self.crt_scan,
            crt_noise: self.crt_noise,
            crt_vignette: self.crt_vignette,
            overscan: self.overscan,
            aspect: self.aspect,
            hud: self.hud,
            logos: self.logos,
            clocks: self.clocks,
            ticker: self.ticker,
            bumpers: self.bumpers,
            snow: self.snow,
            music: self.music,
            clock_24h: self.clock_24h,
            logo_dirs: self.logo_dirs@,
            bumper_dir: self.bumper_dir@,
            weather_dir: self.weather_dir@,
            weather_url: self.weather_url@,
            weather_zip: self.weather_zip@,
            weather_location: self.weather_location@,
            weather_lat: self.weather_lat@,
            weather_lon: self.weather_lon@,
            content_dir: self.content_dir@,
            channels: self.channels,
            music_dir: self.music_dir@,
        }
    }
}

/// A manually defined channel. Channel numbers not listed are dealt from the library
/// automatically.
#[derive(Clone, Default)]
pub struct LineupChannel {
    pub number: usize,
    pub name: String,  // shown as the channel's network; empty = the logo's name / auto
    pub logo: String,  // network logo name from the logo folders, e.g. "HBO"; empty = none
    pub sources: Vec<String>,  // folders, walked recursively; empty = dealt like an auto channel
    pub shuffle: bool,  // else alphabetical
    pub bug: String,  // "auto" | "off" | "br" | "bl" | "tl"
    pub clock: String,  // "auto" | "on" | "off"
    pub ticker: String,  // "auto" | "on" | "off"
    pub idents: String,  // "auto" | "off" | a folder name among the idents
}

#[derive(Clone, Default)]
pub struct Lineup {
    pub channels: Vec<LineupChannel>,
}

// ---------------------------------------------------------------- where the files live

/// What is known of the folders that could hold the files.
pub struct Surroundings {
    pub exe_dir: String,
    /// The program's folder can be written to.
    pub writable: bool,
    pub windows: bool,
    pub local_app_data: Option<String>,
    pub xdg_config_home: Option<String>,
    pub home: Option<String>,
}

/// The user's own folder for configuration, as far as the system names one.
pub open spec fn user_base(s: Surroundings) -> Seq<char> {
    if s.windows {
        match s.local_app_data {
            Some(d) => d@,
            None => s.exe_dir@,
        }
    } else {
        match s.xdg_config_home {
            Some(d) => d@,
            None => match s.home {
                Some(h) => joined(s.windows, h@, ".config"@),
                None => s.exe_dir@,
            },
        }
    }
}

/// Where the JSON files live: next to the exe when that folder is writable (portable install),
/// otherwise the folder "tuner" among the user's configuration.
pub fn config_dir(s: &Surroundings) -> (r: String)
    ensures
        r@ == (if s.writable {
            s.exe_dir@
        } else {
            joined(s.windows, user_base(*s), "tuner"@)
        }),
{
    if s.writable {
        return s.exe_dir.clone();
    }
    let base = if s.windows {
        match &s.local_app_data {
            Some(d) => d.clone(),
            None => s.exe_dir.clone(),
        }
    } else {
        match &s.xdg_config_home {
            Some(d) => d.clone(),
            None => match &s.home {
                Some(h) => join(s.windows, h.as_str(), ".config"),
                None => s.exe_dir.clone(),
            },
        }
    };
    join(s.windows, base.as_str(), "tuner")
}

impl Lineup {
    /// The lineup file, next to the settings.
    pub fn path(config_dir: &str, windows: bool) -> (r: String)
        ensures
            r@ == joined(windows, config_dir@, "tuner_lineup.json"@),
    {
        join(windows, config_dir, "tuner_lineup.json")
    }

    /// The highest channel number that the lineup lists; 0 when it lists none.
    pub fn highest(&self) -> (r: usize)
        ensures
            forall|i: int|
                0 <= i < self.channels@.len() ==> (#[trigger] self.channels@[i]).number <= r,
            self.channels@.len() == 0 ==> r == 0,
            self.channels@.len() > 0 ==> exists|i: int|
                0 <= i < self.channels@.len() && (#[trigger] self.channels@[i]).number == r,
    {
        let mut best: usize = 0;
        let mut i: usize = 0;
        let ghost mut at: int = 0;
        while i < self.channels.len()
            invariant
                i <= self.channels@.len(),
                forall|j: int| 0 <= j < i ==> (#[trigger] self.channels@[j]).number <= best,
                i == 0 ==> best == 0,
                i > 0 ==> 0 <= at < i && self.channels@[at].number == best,
            decreases self.channels@.len() - i,
        {
            if i == 0 || self.channels[i].number > best {
                best = self.channels[i].number;
                proof {
                    at = i as int;
                }
            }
            i += 1;
        }
        best
    }
}

// ---------------------------------------------------------------- choices and the menu

pub const ASPECT_COUNT: usize = 4;

pub const HUD_COUNT: usize = 5;

/// The names of the picture shapes.
pub open spec fn aspect_text(i: int) -> Seq<char> {
    if i <= 0 {
        "FIT"@
    } else if i == 1 {
        "4:3"@
    } else if i == 2 {
        "16:9"@
    } else {
        "STRETCH"@
    }
}

/// The name of a picture shape; past the end it is the last one.
pub fn aspect_name(i: usize) -> (r: &'static str)
    ensures
        r@ == aspect_text(i as int),
{
    match i {
        0 => "FIT",
        1 => "4:3",
        2 => "16:9",
        _ => "STRETCH",
    }
}

pub open spec fn hud_text(i: int) -> Seq<char> {
    if i <= 0 {
        "GREEN"@
    } else if i == 1 {
        "WHITE"@
    } else if i == 2 {
        "AMBER"@
    } else if i == 3 {
        "CYAN"@
    } else {
        "MAGENTA"@
    }
}

pub open spec fn hud_rgb(i: int) -> u32 {
    if i <= 0 {
        0x00_2c_f5_3c
    } else if i == 1 {
        0x00_f0_f0_f0
    } else if i == 2 {
        0x00_ff_b0_20
    } else if i == 3 {
        0x00_30_e0_f0
    } else {
        0x00_f0_40_d0
    }
}

/// The name of a HUD colour; past the end it is the last one.
pub fn hud_name(i: usize) -> (r: &'static str)
    ensures
        r@ == hud_text(i as int),
{
    match i {
        0 => "GREEN",
        1 => "WHITE",
        2 => "AMBER",
        3 => "CYAN",
        _ => "MAGENTA",
    }
}

pub const MENU_LEN: usize = 16;

/// The row of the ZIP code, the one row that is typed into.
pub const MENU_ZIP: usize = 15;

/// The row that has a star behind its label: the one that needs a restart.
pub const MENU_STARRED: usize = 11;

/// The label of setup-menu row `i`.
pub open spec fn menu_text(i: int) -> Seq<char> {
    if i == 0 {
        "CRT TUBE"@
    } else if i == 1 {
        "CRT CURVATURE"@
    } else if i == 2 {
        "CRT SCANLINES"@
    } else if i == 3 {
        "CRT NOISE"@
    } else if i == 4 {
        "CRT VIGNETTE"@
    } else if i == 5 {
        "OVERSCAN"@
    } else if i == 6 {
        "ASPECT"@
    } else if i == 7 {
        "HUD COLOR"@
    } else if i == 8 {
        "CHANNEL LOGOS"@
    } else if i == 9 {
        "CLOCK BUGS"@
    } else if i == 10 {
        "NEWS TICKER"@
    } else if i == 11 {
        "STATION IDENTS"@
    } else if i == 12 {
        "SNOW ON TUNE"@
    } else if i == 13 {
        "HOLD MUSIC"@
    } else if i == 14 {
        "24 HOUR CLOCK"@
    } else {
        "WEATHER ZIP"@
    }
}

/// The label of setup-menu row `i`. The order matches `value` and `adjust`.
pub fn menu_label(i: usize) -> (r: &'static str)
    ensures
        r@ == menu_text(i as int),
{
    match i {
        0 => "CRT TUBE",
        1 => "CRT CURVATURE",
        2 => "CRT SCANLINES",
        3 => "CRT NOISE",
        4 => "CRT VIGNETTE",
        5 => "OVERSCAN",
        6 => "ASPECT",
        7 => "HUD COLOR",
        8 => "CHANNEL LOGOS",
        9 => "CLOCK BUGS",
        10 => "NEWS TICKER",
        11 => "STATION IDENTS",
        12 => "SNOW ON TUNE",
        13 => "HOLD MUSIC",
        14 => "24 HOUR CLOCK",
        _ => "WEATHER ZIP",
    }
}

/// Whether changing setup-menu row `i` takes effect at the next start only.
pub open spec fn needs_restart(i: int) -> bool {
    i == MENU_STARRED
}

/// Whether changing setup-menu row `i` takes effect at the next start only.
pub fn menu_restart(i: usize) -> (r: bool)
    ensures
        r == needs_restart(i as int),
{
    i == MENU_STARRED
}

pub open spec fn onoff_text(b: bool) -> Seq<char> {
    if b {
        "ON"@
    } else {
        "OFF"@
    }
}

pub fn onoff(b: bool) -> (r: String)
    ensures
        r@ == onoff_text(b),
{
    if b {
        "ON".to_owned()
    } else {
        "OFF".to_owned()
    }
}

/// `n / d` rounded to the nearest whole number, halves to the even one.
pub open spec fn rounded(n: nat, d: nat) -> nat
    recommends
        d > 0,
{
    let q = n / d;
    let r = n % d;
    if 2 * r < d || (2 * r == d && q % 2 == 0) {
        q
    } else {
        q + 1
    }
}

pub open spec fn magnitude(x: int) -> nat {
    if x < 0 {
        (-x) as nat
    } else {
        x as nat
    }
}

/// A control as a percentage: `unit` millionths are one percent.
pub open spec fn percent_text(v: int, unit: nat, plus: bool) -> Seq<char> {
    let sign = if v < 0 {
        "-"@
    } else if plus {
        "+"@
    } else {
        Seq::empty()
    };
    sign + decimal(rounded(magnitude(v), unit)) + "%"@
}

fn percent(v: i32, unit: u64, plus: bool) -> (r: String)
    requires
        0 < unit <= 1_000_000,
    ensures
        r@ == percent_text(v as int, unit as nat, plus),
{
    let mut s = String::new();
    if v < 0 {
        s.append("-");
    } else if plus {
        s.append("+");
    }
    let m: u64 = if v < 0 { (-(v as i64)) as u64 } else { v as u64 };
    let q = m / unit;
    let rem = m % unit;
    let n: u64 = if 2 * rem < unit || (2 * rem == unit && q % 2 == 0) { q } else { q + 1 };
    let ghost sign = s@;
    push_decimal(&mut s, n);
    s.append("%");
    proof {
        if v < 0 {
            assert(sign =~= "-"@);
        } else if plus {
            assert(sign =~= "+"@);
        } else {
            assert(sign =~= Seq::<char>::empty());
        }
    }
    s
}

/// A control moved by `dir` steps and held to its range.
pub open spec fn stepped(v: int, step: int, dir: int, lo: int, hi: int) -> int {
    let x = v + step * dir;
    if x < lo {
        lo
    } else if x > hi {
        hi
    } else {
        x
    }
}

fn step(v: i32, s: i32, dir: i32, lo: i32, hi: i32) -> (r: i32)
    requires
        lo <= hi,
        0 <= s <= 1_000_000,
    ensures
        r == stepped(v as int, s as int, dir as int, lo as int, hi as int),
        lo <= r <= hi,
{
    assert(-0x8000_0000 * 1_000_000 <= s * dir <= 0x8000_0000 * 1_000_000) by (nonlinear_arith)
        requires
            0 <= s <= 1_000_000,
            -0x8000_0000 <= dir < 0x8000_0000,
    ;
    let x: i64 = v as i64 + s as i64 * dir as i64;
    if x < lo as i64 {
        lo
    } else if x > hi as i64 {
        hi
    } else {
        x as i32
    }
}

fn cycle(v: usize, dir: i32, n: usize) -> (r: usize)
    requires
        n > 0,
    ensures
        r == (v + dir) % (n as int),
        r < n,
{
    wrap(v as i128 + dir as i128, n as i128) as usize
}

// ---------------------------------------------------------------- values and changes

impl SettingsView {
    /// The settings of a fresh install. Folder defaults are empty: the wizard of the set up tool
    /// fills them in.
    pub open spec fn fresh(self) -> bool {
        &&& !self.crt
        &&& self.crt_curve == 45_000
        &&& self.crt_scan == 1_000_000
        &&& self.crt_noise == 35_000
        &&& self.crt_vignette == 220_000
        &&& self.overscan == 0
        &&& self.aspect == 0
        &&& self.hud == 0
        &&& self.logos && self.clocks && self.ticker && self.bumpers && self.snow && self.music
        &&& !self.clock_24h
        &&& self.logo_dirs == LOGO_DIRS@
        &&& self.bumper_dir == BUMPER_DIR@
        &&& self.weather_dir == ""@
        &&& self.weather_url == ""@
        &&& self.weather_zip == ""@
        &&& self.weather_location == "Cleveland, OH"@
        &&& self.weather_lat == "41.4993"@
        &&& self.weather_lon == "-81.6944"@
        &&& self.content_dir == "content"@
        &&& self.channels == 20
        &&& self.music_dir == MUSIC_DIR@
    }

    /// Every control lies where the menu can take it.
    pub open spec fn in_range(self) -> bool {
        &&& 0 <= self.crt_curve <= 120_000
        &&& 0 <= self.crt_scan <= 1_000_000
        &&& 0 <= self.crt_noise <= 100_000
        &&& 0 <= self.crt_vignette <= 500_000
        &&& -100_000 <= self.overscan <= 100_000
        &&& self.aspect < ASPECT_COUNT
        &&& self.hud < HUD_COUNT
    }

    /// The text of menu row `i`.
    pub open spec fn value_text(self, i: int) -> Seq<char> {
        if i == 0 {
            onoff_text(self.crt)
        } else if i == 1 {
            percent_text(self.crt_curve as int, 1_000, false)
        } else if i == 2 {
            percent_text(self.crt_scan as int, 10_000, false)
        } else if i == 3 {
            percent_text(self.crt_noise as int, 1_000, false)
        } else if i == 4 {
            percent_text(self.crt_vignette as int, 5_000, false)
        } else if i == 5 {
            percent_text(self.overscan as int, 10_000, true)
        } else if i == 6 {
            aspect_text(self.aspect as int)
        } else if i == 7 {
            hud_text(self.hud as int)
        } else if i == 8 {
            onoff_text(self.logos)
        } else if i == 9 {
            onoff_text(self.clocks)
        } else if i == 10 {
            onoff_text(self.ticker)
        } else if i == 11 {
            onoff_text(self.bumpers)
        } else if i == 12 {
            onoff_text(self.snow)
        } else if i == 13 {
            onoff_text(self.music)
        } else if i == 14 {
            onoff_text(self.clock_24h)
        } else if self.weather_zip.len() == 0 {
            "-----"@
        } else {
            self.weather_zip
        }
    }

    /// The settings after menu row `i` was moved by `dir`.
    pub open spec fn adjusted(self, i: int, dir: int) -> SettingsView {
        if i == 0 {
            SettingsView { crt: !self.crt, ..self }
        } else if i == 1 {
            let v = stepped(self.crt_curve as int, 10_000, dir, 0, 120_000);
            SettingsView { crt_curve: v as i32, ..self }
        } else if i == 2 {
            let v = stepped(self.crt_scan as int, 100_000, dir, 0, 1_000_000);
            SettingsView { crt_scan: v as i32, ..self }
        } else if i == 3 {
            let v = stepped(self.crt_noise as int, 10_000, dir, 0, 100_000);
            SettingsView { crt_noise: v as i32, ..self }
        } else if i == 4 {
            let v = stepped(self.crt_vignette as int, 50_000, dir, 0, 500_000);
            SettingsView { crt_vignette: v as i32, ..self }
        } else if i == 5 {
            let v = stepped(self.overscan as int, 10_000, dir, -100_000, 100_000);
            SettingsView { overscan: v as i32, ..self }
        } else if i == 6 {
            SettingsView { aspect: ((self.aspect + dir) % (ASPECT_COUNT as int)) as usize, ..self }
        } else if i == 7 {
            SettingsView { hud: ((self.hud + dir) % (HUD_COUNT as int)) as usize, ..self }
        } else if i == 8 {
            SettingsView { logos: !self.logos, ..self }
        } else if i == 9 {
            SettingsView { clocks: !self.clocks, ..self }
        } else if i == 10 {
            SettingsView { ticker: !self.ticker, ..self }
        } else if i == 11 {
            SettingsView { bumpers: !self.bumpers, ..self }
        } else if i == 12 {
            SettingsView { snow: !self.snow, ..self }
        } else if i == 13 {
            SettingsView { music: !self.music, ..self }
        } else if i == 14 {
            SettingsView { clock_24h: !self.clock_24h, ..self }
        } else {
            self
        }
    }
}

impl Settings {
    /// The settings file, in the folder of the configuration.
    pub fn path(config_dir: &str, windows: bool) -> (r: String)
        ensures
            r@ == joined(windows, config_dir@, "tuner_settings.json"@),
    {
        join(windows, config_dir, "tuner_settings.json")
    }

    /// Display value for menu row `i`.
    pub fn value(&self, i: usize) -> (r: String)
        ensures
            r@ == self@.value_text(i as int),
    {
        match i {
            0 => onoff(self.crt),
            1 => percent(self.crt_curve, 1_000, false),
            2 => percent(self.crt_scan, 10_000, false),
            3 => percent(self.crt_noise, 1_000, false),
            4 => percent(self.crt_vignette, 5_000, false),
            5 => percent(self.overscan, 10_000, true),
            6 => aspect_name(self.aspect).to_owned(),
            7 => hud_name(self.hud).to_owned(),
            8 => onoff(self.logos),
            9 => onoff(self.clocks),
            10 => onoff(self.ticker),
            11 => onoff(self.bumpers),
            12 => onoff(self.snow),
            13 => onoff(self.music),
            14 => onoff(self.clock_24h),
            _ => if self.weather_zip.as_str().is_empty() {
                "-----".to_owned()
            } else {
                self.weather_zip.clone()
            },
        }
    }

    /// Left/right on menu row `i` (`dir` = -1 / +1). Numbers step and clamp, choices cycle.
    pub fn adjust(&mut self, i: usize, dir: i32)
        ensures
            final(self)@ == old(self)@.adjusted(i as int, dir as int),
    {
        match i {
            0 => self.crt = !self.crt,
            1 => self.crt_curve = step(self.crt_curve, 10_000, dir, 0, 120_000),
            2 => self.crt_scan = step(self.crt_scan, 100_000, dir, 0, 1_000_000),
            3 => self.crt_noise = step(self.crt_noise, 10_000, dir, 0, 100_000),
            4 => self.crt_vignette = step(self.crt_vignette, 50_000, dir, 0, 500_000),
            5 => self.overscan = step(self.overscan, 10_000, dir, -100_000, 100_000),
            6 => self.aspect = cycle(self.aspect, dir, ASPECT_COUNT),
            7 => self.hud = cycle(self.hud, dir, HUD_COUNT),
            8 => self.logos = !self.logos,
            9 => self.clocks = !self.clocks,
            10 => self.ticker = !self.ticker,
            11 => self.bumpers = !self.bumpers,
            12 => self.snow = !self.snow,
            13 => self.music = !self.music,
            14 => self.clock_24h = !self.clock_24h,
            _ => {},
        }
    }

    /// The colour of the set's own display, 0RGB; past the last colour it is the last one.
    pub fn hud_color(&self) -> (r: u32)
        ensures
            r == hud_rgb(self.hud as int),
    {
        match self.hud {
            0 => 0x00_2c_f5_3c,
            1 => 0x00_f0_f0_f0,
            2 => 0x00_ff_b0_20,
            3 => 0x00_30_e0_f0,
            _ => 0x00_f0_40_d0,
        }
    }
}

impl Default for Settings {
    fn default() -> (r: Self)
        ensures
            r@.fresh(),
    {
        Settings {
            crt: false,
            crt_curve: 45_000,
            crt_scan: 1_000_000,
            crt_noise: 35_000,
            crt_vignette: 220_000,
            overscan: 0,
            aspect: 0,
            hud: 0,
            logos: true,
            clocks: true,
            ticker: true,
            bumpers: true,
            snow: true,
            music: true,
            clock_24h: false,
            logo_dirs: LOGO_DIRS.to_owned(),
            bumper_dir: BUMPER_DIR.to_owned(),
            weather_dir: "".to_owned(),
            weather_url: "".to_owned(),
            weather_zip: "".to_owned(),
            weather_location: "Cleveland, OH".to_owned(),
            weather_lat: "41.4993".to_owned(),
            weather_lon: "-81.6944".to_owned(),
            content_dir: "content".to_owned(),
            channels: 20,
            music_dir: MUSIC_DIR.to_owned(),
        }
    }
}

impl Clone for Settings {
    fn clone(&self) -> (r: Self)
        ensures
            r@ == self@,
    {
        Settings {
            crt: self.crt,
            crt_curve: self.crt_curve,
            crt_scan: self.crt_scan,
            crt_noise: self.crt_noise,
            crt_vignette: self.crt_vignette,
            overscan: self.overscan,
            aspect: self.aspect,
            hud: self.hud,
            logos: self.logos,
            clocks: self.clocks,
            ticker: self.ticker,
            bumpers: self.bumpers,
            snow: self.snow,
            music: self.music,
            clock_24h: self.clock_24h,
            logo_dirs: self.logo_dirs.clone(),
            bumper_dir: self.bumper_dir.clone(),
            weather_dir: self.weather_dir.clone(),
            weather_url: self.weather_url.clone(),
            weather_zip: self.weather_zip.clone(),
            weather_location: self.weather_location.clone(),
            weather_lat: self.weather_lat.clone(),
            weather_lon: self.weather_lon.clone(),
            content_dir: self.content_dir.clone(),
            channels: self.channels,
            music_dir: self.music_dir.clone(),
        }
    }
}

/// The settings of a fresh install lie where the menu can take them.
pub proof fn fresh_settings_are_in_range(s: SettingsView)
    requires
        s.fresh(),
    ensures
        s.in_range(),
{
}

/// No change from the menu leaves the range of a control.
pub proof fn adjusting_stays_in_range(s: SettingsView, i: int, dir: int)
    requires
        s.in_range(),
    ensures
        s.adjusted(i, dir).in_range(),
{
    vstd::arithmetic::div_mod::lemma_mod_bound(s.aspect + dir, ASPECT_COUNT as int);
    vstd::arithmetic::div_mod::lemma_mod_bound(s.hud + dir, HUD_COUNT as int);
}

/// A switch or a choice that is moved one way and back again is where it was, as long as the choice
/// is one that the menu offers.
pub proof fn adjusting_back_undoes(s: SettingsView, i: int, dir: int)
    requires
        i == 6 ==> s.aspect < ASPECT_COUNT,
        i == 7 ==> s.hud < HUD_COUNT,
        i == 0 || i >= 6,
        dir == 1 || dir == -1,
    ensures
        s.adjusted(i, dir).adjusted(i, -dir) == s,
{
    let a = s.adjusted(i, dir).adjusted(i, -dir);
    assert(((s.aspect + dir) % 4 - dir) % 4 == s.aspect % 4);
    assert(((s.hud + dir) % 5 - dir) % 5 == s.hud % 5);
    assert(0 <= (s.aspect + dir) % 4 < 4);
    assert(0 <= (s.hud + dir) % 5 < 5);
    assert(i == 6 ==> a.aspect == s.aspect);
    assert(i == 7 ==> a.hud == s.hud);
}

/// What is on a row of the menu belongs to that row: changing it changes what no other row shows,
/// nor anything that the menu does not show.
pub proof fn a_row_changes_itself_alone(s: SettingsView, i: int, j: int, dir: int)
    requires
        0 <= i < MENU_LEN,
        0 <= j < MENU_LEN,
        i != j,
    ensures
        s.adjusted(i, dir).value_text(j) == s.value_text(j),
        s.adjusted(i, dir).weather_zip == s.weather_zip,
        s.adjusted(i, dir).weather_location == s.weather_location,
        s.adjusted(i, dir).weather_lat == s.weather_lat,
        s.adjusted(i, dir).weather_lon == s.weather_lon,
        s.adjusted(i, dir).weather_url == s.weather_url,
        s.adjusted(i, dir).weather_dir == s.weather_dir,
        s.adjusted(i, dir).logo_dirs == s.logo_dirs,
        s.adjusted(i, dir).bumper_dir == s.bumper_dir,
        s.adjusted(i, dir).content_dir == s.content_dir,
        s.adjusted(i, dir).music_dir == s.music_dir,
        s.adjusted(i, dir).channels == s.channels,
{
}

/// A switch shows ON or OFF, and changing it, either way, shows the other.
pub proof fn a_switch_shows_its_change(s: SettingsView, i: int, dir: int)
    requires
        i == 0 || 8 <= i <= 14,
    ensures
        s.value_text(i) == "ON"@ || s.value_text(i) == "OFF"@,
        s.adjusted(i, dir).value_text(i) == "ON"@ || s.adjusted(i, dir).value_text(i) == "OFF"@,
        s.adjusted(i, dir).value_text(i) != s.value_text(i),
{
    reveal_strlit("ON");
    reveal_strlit("OFF");
    assert("ON"@.len() != "OFF"@.len());
}

/// A row shows and changes what its label says: the switch of the tube on "CRT TUBE", that of the
/// logos on "CHANNEL LOGOS", and so on.
pub proof fn a_switch_is_what_its_label_says(s: SettingsView, i: int, dir: int)
    requires
        0 <= i < MENU_LEN,
    ensures
        menu_text(i) == "CRT TUBE"@ ==> s.adjusted(i, dir).crt != s.crt && (s.value_text(i) == "ON"@
            <==> s.crt),
        menu_text(i) == "CHANNEL LOGOS"@ ==> s.adjusted(i, dir).logos != s.logos && (s.value_text(i)
            == "ON"@ <==> s.logos),
        menu_text(i) == "CLOCK BUGS"@ ==> s.adjusted(i, dir).clocks != s.clocks && (s.value_text(i)
            == "ON"@ <==> s.clocks),
        menu_text(i) == "NEWS TICKER"@ ==> s.adjusted(i, dir).ticker != s.ticker && (s.value_text(i)
            == "ON"@ <==> s.ticker),
        menu_text(i) == "STATION IDENTS"@ ==> s.adjusted(i, dir).bumpers != s.bumpers && (
        s.value_text(i) == "ON"@ <==> s.bumpers),
        menu_text(i) == "SNOW ON TUNE"@ ==> s.adjusted(i, dir).snow != s.snow && (s.value_text(i)
            == "ON"@ <==> s.snow),
        menu_text(i) == "HOLD MUSIC"@ ==> s.adjusted(i, dir).music != s.music && (s.value_text(i)
            == "ON"@ <==> s.music),
        menu_text(i) == "24 HOUR CLOCK"@ ==> s.adjusted(i, dir).clock_24h != s.clock_24h && (
        s.value_text(i) == "ON"@ <==> s.clock_24h),
        menu_text(i) == "WEATHER ZIP"@ ==> s.adjusted(i, dir) == s && (s.weather_zip.len() > 0
            ==> s.value_text(i) == s.weather_zip),
{
    reveal_strlit("ON");
    reveal_strlit("OFF");
    assert("ON"@.len() != "OFF"@.len());
    lemma_labels_differ(i);
}

/// No two rows have the same label.
pub proof fn labels_tell_the_rows_apart(i: int, j: int)
    requires
        0 <= i < j < MENU_LEN,
    ensures
        menu_text(i) != menu_text(j),
{
    lemma_labels_differ(i);
    lemma_labels_differ(j);
}

/// The length of a label with its first letter and the one in its middle tell which it is.
proof fn lemma_labels_differ(i: int)
    requires
        0 <= i < MENU_LEN,
    ensures
        menu_text(i).len() == seq![8int, 13, 13, 9, 12, 8, 6, 9, 13, 10, 11, 14, 12, 10, 13, 11][i],
        menu_text(i).len() > 5,
        menu_text(i)[4] == seq![
            'T', 'C', 'S', 'N', 'V', 'S', 'C', 'C', 'N', 'K', ' ', 'I', ' ', ' ', 'O', 'H',
        ][i],
        menu_text(i)[0] == seq![
            'C', 'C', 'C', 'C', 'C', 'O', 'A', 'H', 'C', 'C', 'N', 'S', 'S', 'H', '2', 'W',
        ][i],
        "CRT TUBE"@ == menu_text(0),
        "CHANNEL LOGOS"@ == menu_text(8),
        "CLOCK BUGS"@ == menu_text(9),
        "NEWS TICKER"@ == menu_text(10),
        "STATION IDENTS"@ == menu_text(11),
        "SNOW ON TUNE"@ == menu_text(12),
        "HOLD MUSIC"@ == menu_text(13),
        "24 HOUR CLOCK"@ == menu_text(14),
        "WEATHER ZIP"@ == menu_text(15),
        forall|j: int| 0 <= j < MENU_LEN && j != i ==> #[trigger] menu_text(j) != menu_text(i),
{
    reveal_strlit("CRT TUBE");
    reveal_strlit("CRT CURVATURE");
    reveal_strlit("CRT SCANLINES");
    reveal_strlit("CRT NOISE");
    reveal_strlit("CRT VIGNETTE");
    reveal_strlit("OVERSCAN");
    reveal_strlit("ASPECT");
    reveal_strlit("HUD COLOR");
    reveal_strlit("CHANNEL LOGOS");
    reveal_strlit("CLOCK BUGS");
    reveal_strlit("NEWS TICKER");
    reveal_strlit("STATION IDENTS");
    reveal_strlit("SNOW ON TUNE");
    reveal_strlit("HOLD MUSIC");
    reveal_strlit("24 HOUR CLOCK");
    reveal_strlit("WEATHER ZIP");
    assert forall|j: int| 0 <= j < MENU_LEN && j != i implies #[trigger] menu_text(j) != menu_text(
        i,
    ) by {
        if menu_text(j) == menu_text(i) {
            assert(menu_text(j).len() == menu_text(i).len());
            assert(menu_text(j)[0] == menu_text(i)[0]);
            assert(menu_text(j)[4] == menu_text(i)[4]);
        }
    }
}

/// Ten units more are ten more when rounded.
proof fn lemma_rounded_on(v: nat, unit: nat)
    requires
        unit > 0,
    ensures
        rounded(v + 10 * unit, unit) == rounded(v, unit) + 10,
{
    let (q, r) = (v / unit, v % unit);
    vstd::arithmetic::div_mod::lemma_fundamental_div_mod(v as int, unit as int);
    assert(v + 10 * unit == (q + 10) * unit + r) by (nonlinear_arith)
        requires
            v == unit * q + r,
    ;
    vstd::arithmetic::div_mod::lemma_fundamental_div_mod_converse(
        (v + 10 * unit) as int,
        unit as int,
        (q + 10) as int,
        r as int,
    );
    assert((q + 10) % 2 == q % 2);
}

/// One step to the right on a row of the tube moves the number that it shows by ten, and one to the
/// left is back again, as long as the step stays within the control's range.
pub proof fn a_step_shows_ten_more(s: SettingsView, i: int) -> (n: nat)
    requires
        s.in_range(),
        1 <= i <= 4,
        i == 1 ==> s.crt_curve <= 110_000,
        i == 2 ==> s.crt_scan <= 900_000,
        i == 3 ==> s.crt_noise <= 90_000,
        i == 4 ==> s.crt_vignette <= 450_000,
    ensures
        s.value_text(i) == decimal(n) + "%"@,
        s.adjusted(i, 1).value_text(i) == decimal(n + 10) + "%"@,
        s.adjusted(i, 1).adjusted(i, -1) == s,
{
    let (v, unit) = if i == 1 {
        (s.crt_curve as nat, 1_000nat)
    } else if i == 2 {
        (s.crt_scan as nat, 10_000nat)
    } else if i == 3 {
        (s.crt_noise as nat, 1_000nat)
    } else {
        (s.crt_vignette as nat, 5_000nat)
    };
    let n = rounded(v, unit);
    lemma_rounded_on(v, unit);
    assert(Seq::<char>::empty() + decimal(n) =~= decimal(n));
    assert(Seq::<char>::empty() + decimal(n + 10) =~= decimal(n + 10));
    n
}

/// The picture grows with every step to the right on "OVERSCAN", by one percent, up to ten percent,
/// and shrinks to the left down to as much less; a step back undoes a step.
pub proof fn overscan_steps_by_one_percent(s: SettingsView)
    requires
        s.in_range(),
    ensures
        s.overscan <= 90_000 ==> s.adjusted(5, 1).overscan == s.overscan + 10_000 && s.adjusted(
            5,
            1,
        ).adjusted(5, -1) == s,
        s.overscan >= -90_000 ==> s.adjusted(5, -1).overscan == s.overscan - 10_000 && s.adjusted(
            5,
            -1,
        ).adjusted(5, 1) == s,
        0 <= s.overscan ==> s.value_text(5)[0] == '+',
        s.overscan < 0 ==> s.value_text(5)[0] == '-',
{
    reveal_strlit("+");
    reveal_strlit("-");
}

/// Held down, a key takes a number of the menu to the end of its range and no further: what it shows
/// there.
pub proof fn a_held_key_reaches_the_end(s: SettingsView, i: int, dir: int)
    requires
        s.in_range(),
        1 <= i <= 5,
        dir >= 20 || dir <= -20,
    ensures
        dir > 0 ==> s.adjusted(i, dir).value_text(i) == (if i == 1 {
            decimal(120) + "%"@
        } else if i == 5 {
            "+"@ + decimal(10) + "%"@
        } else {
            decimal(100) + "%"@
        }),
        dir < 0 ==> s.adjusted(i, dir).value_text(i) == (if i == 5 {
            "-"@ + decimal(10) + "%"@
        } else {
            decimal(0) + "%"@
        }),
        dir > 0 ==> s.adjusted(i, dir).adjusted(i, 1) == s.adjusted(i, dir),
        dir < 0 ==> s.adjusted(i, dir).adjusted(i, -1) == s.adjusted(i, dir),
{
    assert(Seq::<char>::empty() + decimal(120) =~= decimal(120));
    assert(Seq::<char>::empty() + decimal(100) =~= decimal(100));
    assert(Seq::<char>::empty() + decimal(0) =~= decimal(0));
}

/// A choice goes round: every step to the right shows another one, until after as many steps as
/// there are choices it shows the first again.
pub proof fn a_choice_goes_round(s: SettingsView, i: int, j: int, k: int)
    requires
        s.in_range(),
        i == 6 || i == 7,
        0 <= j < k < (if i == 6 {
            ASPECT_COUNT
        } else {
            HUD_COUNT
        }),
    ensures
        s.adjusted(i, j).value_text(i) != s.adjusted(i, k).value_text(i),
        s.adjusted(i, j).adjusted(i, 1) == s.adjusted(i, j + 1),
        s.adjusted(
            i,
            if i == 6 {
                ASPECT_COUNT as int
            } else {
                HUD_COUNT as int
            },
        ) == s,
{
    reveal_strlit("FIT");
    reveal_strlit("4:3");
    reveal_strlit("16:9");
    reveal_strlit("STRETCH");
    reveal_strlit("GREEN");
    reveal_strlit("WHITE");
    reveal_strlit("AMBER");
    reveal_strlit("CYAN");
    reveal_strlit("MAGENTA");
    assert("FIT"@[0] == 'F' && "4:3"@[0] == '4' && "16:9"@[0] == '1' && "STRETCH"@[0] == 'S');
    assert("GREEN"@[0] == 'G' && "WHITE"@[0] == 'W' && "AMBER"@[0] == 'A' && "CYAN"@[0] == 'C'
        && "MAGENTA"@[0] == 'M');
    assert(s.adjusted(i, j).adjusted(i, 1) == s.adjusted(i, j + 1));
}

// ---------------------------------------------------------------- logo folders

/// The folders that a ';'-separated list names: trimmed, without the empty ones.
pub fn folder_list(dirs: &str) -> (r: Vec<String>)
    ensures
        texts(r@) == nonblank(pieces(dirs@, ';')),
{
    split_nonblank(dirs, ';')
}

/// `name` is one of `names` already, whatever the case of its ASCII letters.
pub open spec fn listed(names: Seq<Seq<char>>, name: Seq<char>) -> bool {
    exists|i: int| 0 <= i < names.len() && same_ignoring_case(#[trigger] names[i], name)
}

/// The cleaned names of logo files: none empty, none listed twice, in the order found.
pub open spec fn distinct_names(stems: Seq<Seq<char>>) -> Seq<Seq<char>>
    decreases stems.len(),
{
    if stems.len() == 0 {
        Seq::empty()
    } else {
        let rest = distinct_names(stems.drop_last());
        let name = cleaned(stems.last());
        if name.len() > 0 && !listed(rest, name) {
            rest.push(name)
        } else {
            rest
        }
    }
}

/// `names` ordered by their lower-case forms; those with the same form keep their order.
pub open spec fn in_name_order(names: Seq<Seq<char>>) -> Seq<Seq<char>> {
    let low = names.map_values(|n: Seq<char>| lowercase(n));
    sort_by(numbers(names.len()), low).map_values(|k: usize| names[k as int])
}

fn is_listed(names: &Vec<String>, name: &str) -> (r: bool)
    ensures
        r == listed(texts(names@), name@),
{
    let mut i: usize = 0;
    while i < names.len()
        invariant
            i <= names@.len(),
            forall|j: int|
                0 <= j < i ==> !same_ignoring_case(#[trigger] texts(names@)[j], name@),
        decreases names@.len() - i,
    {
        if eq_ignore_ascii_case(names[i].as_str(), name) {
            assert(same_ignoring_case(texts(names@)[i as int], name@));
            return true;
        }
        assert(texts(names@)[i as int] == names@[i as int]@);
        i += 1;
    }
    false
}

impl Settings {
    /// Network names available for the lineup editor, from the stems of the PNG files in the logo
    /// folders.
    pub fn logo_names(stems: &Vec<String>) -> (r: Vec<String>)
        ensures
            texts(r@) == in_name_order(distinct_names(texts(stems@))),
    {
        let mut names: Vec<String> = Vec::new();
        let mut keys: Vec<Vec<char>> = Vec::new();
        let mut order: Vec<usize> = Vec::new();
        let ghost all = texts(stems@);
        let mut i: usize = 0;
        assert(texts(names@) =~= distinct_names(all.take(0)));
        while i < stems.len()
            invariant
                i <= stems@.len(),
                all == texts(stems@),
                texts(names@) == distinct_names(all.take(i as int)),
                keys@.len() == names@.len() == order@.len(),
                forall|j: int| 0 <= j < keys@.len() ==> #[trigger] keys@[j]@ == lowercase(names@[j]@),
                forall|j: int| 0 <= j < order@.len() ==> #[trigger] order@[j] == j,
            decreases stems@.len() - i,
        {
            let name = clean_name(stems[i].as_str());
            proof {
                let next = all.take(i + 1);
                assert(next.drop_last() =~= all.take(i as int));
                assert(next.last() == stems@[i as int]@);
            }
            if !name.as_str().is_empty() && !is_listed(&names, name.as_str()) {
                let low = to_lowercase(name.as_str());
                let ghost before = names@;
                order.push(names.len());
                keys.push(chars_of(low.as_str()));
                names.push(name);
                assert(texts(names@) =~= texts(before).push(name@));
            }
            i += 1;
        }
        let sorted = sort_indices(&order, &keys);
        let ghost found = texts(names@);
        proof {
            assert(all.take(all.len() as int) =~= all);
            assert(order@ =~= numbers(found.len()));
            assert(key_texts(keys@) =~= found.map_values(|n: Seq<char>| lowercase(n)));
        }
        let mut out: Vec<String> = Vec::new();
        let mut k: usize = 0;
        while k < sorted.len()
            invariant
                k <= sorted@.len(),
                found == texts(names@),
                forall|j: int| 0 <= j < sorted@.len() ==> #[trigger] sorted@[j] < names@.len(),
                texts(out@) =~= sorted@.take(k as int).map_values(|x: usize| found[x as int]),
            decreases sorted@.len() - k,
        {
            let ghost before = out@;
            let name = names[sorted[k]].clone();
            out.push(name);
            proof {
                assert(texts(out@) =~= texts(before).push(found[sorted@[k as int] as int]));
                assert(sorted@.take(k + 1) =~= sorted@.take(k as int).push(sorted@[k as int]));
            }
            k += 1;
        }
        assert(sorted@.take(sorted@.len() as int) =~= sorted@);
        out
    }
}

// ---------------------------------------------------------------- weather

/// How one byte of a place's name stands in the page's address.
pub open spec fn query_byte(b: u8) -> Seq<char> {
    if b == 32 {
        seq!['+']
    } else if b == 44 {
        seq!['%', '2', 'C']
    } else {
        seq![b as char]
    }
}

pub open spec fn query_text(bytes: Seq<u8>) -> Seq<char>
    decreases bytes.len(),
{
    if bytes.len() == 0 {
        Seq::empty()
    } else {
        query_text(bytes.drop_last()) + query_byte(bytes.last())
    }
}

impl SettingsView {
    /// The address of the WeatherStar page; none without a server.
    pub open spec fn weather_address(self) -> Option<Seq<char>> {
        if self.weather_url.len() == 0 {
            None
        } else {
            let sep = if self.weather_url.contains('?') {
                '&'
            } else {
                '?'
            };
            Some(
                self.weather_url.push(sep) + "latLonQuery="@ + query_text(
                    encode_utf8(self.weather_location),
                ) + "&latLon=%7B%22lat%22%3A"@ + self.weather_lat + "%2C%22lon%22%3A"@
                    + self.weather_lon + "%7D&settings-kiosk-checkbox=true"@,
            )
        }
    }
}

impl Settings {
    /// Full WeatherStar URL: location + kiosk mode (auto-play, no controls).
    pub fn weather_page(&self) -> (r: Option<String>)
        ensures
            match r {
                Some(t) => self@.weather_address() == Some(t@),
                None => self@.weather_address() is None,
            },
    {
        if self.weather_url.as_str().is_empty() {
            return None;
        }
        let u = chars_of(self.weather_url.as_str());
        let mut asked = false;
        let mut i: usize = 0;
        while i < u.len()
            invariant
                i <= u@.len(),
                asked == u@.take(i as int).contains('?'),
            decreases u@.len() - i,
        {
            proof {
                let next = u@.take(i + 1);
                if u@.take(i as int).contains('?') {
                    let j = choose|j: int| 0 <= j < i && u@.take(i as int)[j] == '?';
                    assert(next[j] == '?');
                }
                if u@[i as int] == '?' {
                    assert(next[i as int] == '?');
                } else if next.contains('?') {
                    let j = choose|j: int| 0 <= j < i + 1 && next[j] == '?';
                    assert(u@.take(i as int)[j] == '?');
                }
            }
            if u[i] == '?' {
                asked = true;
            }
            i += 1;
        }
        assert(u@.take(u@.len() as int) =~= u@);
        let mut s = self.weather_url.clone();
        s.push(if asked { '&' } else { '?' });
        s.append("latLonQuery=");
        let ghost head = s@;
        let place = self.weather_location.as_str();
        let bytes = place.as_bytes();
        let mut k: usize = 0;
        assert(head + query_text(bytes@.take(0)) =~= head);
        while k < bytes.len()
            invariant
                k <= bytes@.len(),
                s@ == head + query_text(bytes@.take(k as int)),
            decreases bytes@.len() - k,
        {
            let b = bytes[k];
            proof {
                let next = bytes@.take(k + 1);
                assert(next.drop_last() =~= bytes@.take(k as int));
                assert(next.last() == b);
            }
            let ghost before = s@;
            if b == 32 {
                s.push('+');
            } else if b == 44 {
                s.push('%');
                s.push('2');
                s.push('C');
            } else {
                s.push(b as char);
            }
            assert(s@ =~= before + query_byte(b));
            assert(s@ =~= head + (query_text(bytes@.take(k as int)) + query_byte(b)));
            k += 1;
        }
        assert(bytes@.take(bytes@.len() as int) =~= bytes@);
        s.append("&latLon=%7B%22lat%22%3A");
        s.append(self.weather_lat.as_str());
        s.append("%2C%22lon%22%3A");
        s.append(self.weather_lon.as_str());
        s.append("%7D&settings-kiosk-checkbox=true");
        Some(s)
    }
}

/// The port that an address ends in: what stands behind the last ':' and before the '/' after it.
pub open spec fn port_in(url: Seq<char>) -> nat {
    match parsed(pieces(pieces(url, ':').last(), '/')[0], 65535) {
        Some(p) => p,
        None => 8083,
    }
}

/// The port of the local WeatherStar server; 8083 when the address names none.
pub fn weather_port(url: &str) -> (r: u16)
    ensures
        r == port_in(url@),
{
    let by_colon = split(url, ':');
    proof {
        pieces_not_empty(url@, ':');
        assert(texts(by_colon@).len() == by_colon@.len());
    }
    let tail = &by_colon[by_colon.len() - 1];
    assert(tail@ == texts(by_colon@).last());
    let by_slash = split(tail.as_str(), '/');
    proof {
        pieces_not_empty(tail@, '/');
        assert(texts(by_slash@).len() == by_slash@.len());
        assert(texts(by_slash@)[0] == by_slash@[0]@);
    }
    match parse(by_slash[0].as_str(), 65535) {
        Some(p) => p as u16,
        None => 8083,
    }
}

// ---------------------------------------------------------------- clock and date

/// Two digits.
pub open spec fn two(n: int) -> Seq<char> {
    decimal_padded(n as nat, 2)
}

/// The hour on a 12-hour dial.
pub open spec fn dial_hour(h: int) -> int {
    if h % 12 == 0 {
        12
    } else {
        h % 12
    }
}

pub open spec fn half_of_day(h: int) -> Seq<char> {
    if h >= 12 {
        " PM"@
    } else {
        " AM"@
    }
}

/// The patterns in which the clock is shown.
pub open spec fn clock_pattern(h24: bool, secs: bool) -> Seq<char> {
    if h24 && secs {
        "%H:%M:%S"@
    } else if h24 {
        "%H:%M"@
    } else if secs {
        "%I:%M:%S %p"@
    } else {
        "%I:%M %p"@
    }
}

/// A time of day in one of those patterns, two digits for each number.
pub open spec fn time_of_day(h: int, m: int, s: int, h24: bool, secs: bool) -> Seq<char> {
    let hour = if h24 {
        two(h)
    } else {
        two(dial_hour(h))
    };
    let tail = if secs {
        seq![':'] + two(m) + seq![':'] + two(s)
    } else {
        seq![':'] + two(m)
    };
    hour + tail + (if h24 {
        Seq::empty()
    } else {
        half_of_day(h)
    })
}

/// `chrono::NaiveTime::format` on a time without a fraction: %H, %M and %S are the hour, the
/// minute and the second in two digits, %I the hour on a 12-hour dial in two digits, %p AM or PM.
#[verifier::external_body]
fn format_time(h: u32, m: u32, s: u32, pattern: &str, h24: bool, secs: bool) -> (r: String)
    requires
        h < 24,
        m < 60,
        s < 60,
        pattern@ == clock_pattern(h24, secs),
    ensures
        r@ == time_of_day(h as int, m as int, s as int, h24, secs),
{
    chrono::NaiveTime::from_hms_opt(h, m, s).unwrap().format(pattern).to_string()
}

/// `chrono::Local::now`: the local time of day as hour, minute and second. Which time it is
/// depends on the machine; only the ranges are known.
#[verifier::external_body]
fn local_time() -> (r: (u32, u32, u32))
    ensures
        r.0 < 24,
        r.1 < 60,
        r.2 < 60,
{
    let now = chrono::Local::now().time();
    (chrono::Timelike::hour(&now), chrono::Timelike::minute(&now), chrono::Timelike::second(&now))
}

/// `s` without the zeros at its start.
pub open spec fn without_zeros(s: Seq<char>) -> Seq<char>
    decreases s.len(),
{
    if s.len() > 0 && s[0] == '0' {
        without_zeros(s.drop_first())
    } else {
        s
    }
}

/// The clock's text at a time of day: on the 12-hour clock the hour has no leading zero.
pub open spec fn clock_text(h: int, m: int, s: int, h24: bool, secs: bool) -> Seq<char> {
    if h24 {
        time_of_day(h, m, s, h24, secs)
    } else {
        without_zeros(time_of_day(h, m, s, h24, secs))
    }
}

fn strip_zeros(s: &str) -> (r: String)
    ensures
        r@ == without_zeros(s@),
{
    let v = chars_of(s);
    let mut i: usize = 0;
    assert(v@.skip(0) =~= v@);
    while i < v.len() && v[i] == '0'
        invariant
            i <= v@.len(),
            without_zeros(v@) == without_zeros(v@.skip(i as int)),
        decreases v@.len() - i,
    {
        assert(v@.skip(i as int).drop_first() =~= v@.skip(i + 1));
        i += 1;
    }
    assert(v@.skip(i as int) =~= v@.subrange(i as int, v@.len() as int));
    string_range(&v, i, v.len())
}

impl Settings {
    /// The clock's text at a given time of day.
    pub fn clock_at(&self, h: u32, m: u32, s: u32, secs: bool) -> (r: String)
        requires
            h < 24,
            m < 60,
            s < 60,
        ensures
            r@ == clock_text(h as int, m as int, s as int, self.clock_24h, secs),
    {
        let pattern = match (self.clock_24h, secs) {
            (true, true) => "%H:%M:%S",
            (true, false) => "%H:%M",
            (false, true) => "%I:%M:%S %p",
            (false, false) => "%I:%M %p",
        };
        let t = format_time(h, m, s, pattern, self.clock_24h, secs);
        if self.clock_24h {
            t
        } else {
            strip_zeros(t.as_str())
        }
    }

    /// The clock's text now.
    pub fn clock(&self, secs: bool) -> (r: String)
        ensures
            exists|h: int, m: int, s: int|
                0 <= h < 24 && 0 <= m < 60 && 0 <= s < 60 && r@ == #[trigger] clock_text(
                    h,
                    m,
                    s,
                    self.clock_24h,
                    secs,
                ),
    {
        let (h, m, s) = local_time();
        let r = self.clock_at(h, m, s, secs);
        assert(r@ == clock_text(h as int, m as int, s as int, self.clock_24h, secs));
        r
    }
}

/// The hour of the day now.
pub fn hour_now() -> (r: u32)
    ensures
        r < 24,
{
    let (h, m, s) = local_time();
    h
}

/// The pattern in which the guide shows a day: weekday, month and day of the month.
pub open spec fn day_pattern() -> Seq<char> {
    "%a %b %e"@
}

/// What `chrono::NaiveDate::format` makes of a day in a pattern. None for a day that no calendar
/// has.
pub uninterp spec fn day_form(y: i32, m: u32, d: u32, pattern: Seq<char>) -> Option<Seq<char>>;

/// `chrono::NaiveDate::from_ymd_opt` and `format`: a function of the three numbers and the pattern
/// alone. A pattern that `chrono` does not know would panic; this one it knows.
#[verifier::external_body]
fn format_day(y: i32, m: u32, d: u32, pattern: &str) -> (r: Option<String>)
    requires
        pattern@ == day_pattern(),
    ensures
        text_of(r) == day_form(y, m, d, pattern@),
{
    chrono::NaiveDate::from_ymd_opt(y, m, d).map(|x| x.format(pattern).to_string())
}

/// `chrono::Local::now`: today as year, month and day of the month. Which day it is depends on
/// the machine.
#[verifier::external_body]
fn local_day() -> (r: (i32, u32, u32))
    ensures
        1 <= r.1 <= 12,
        1 <= r.2 <= 31,
{
    let now = chrono::Local::now().date_naive();
    (chrono::Datelike::year(&now), chrono::Datelike::month(&now), chrono::Datelike::day(&now))
}

/// The guide's date line for a day.
pub open spec fn date_text(day: Option<Seq<char>>) -> Seq<char> {
    match day {
        Some(t) => uppercase(t),
        None => Seq::empty(),
    }
}

/// The guide's date line for a day, from the day as the calendar writes it.
pub fn date_line(day: &Option<String>) -> (r: String)
    ensures
        r@ == date_text(text_of(*day)),
{
    match day {
        Some(t) => to_uppercase(t.as_str()),
        None => String::new(),
    }
}

/// The guide's date line for a given day.
pub fn date_at(y: i32, m: u32, d: u32) -> (r: String)
    ensures
        r@ == date_text(day_form(y, m, d, day_pattern())),
{
    date_line(&format_day(y, m, d, "%a %b %e"))
}

/// The guide's date line today.
pub fn date_now() -> (r: String)
    ensures
        exists|y: i32, m: u32, d: u32|
            1 <= m <= 12 && 1 <= d <= 31 && r@ == date_text(
                #[trigger] day_form(y, m, d, day_pattern()),
            ),
{
    let (y, m, d) = local_day();
    date_at(y, m, d)
}

// ---------------------------------------------------------------- what the texts say

proof fn lemma_two(n: int)
    requires
        0 <= n < 100,
    ensures
        two(n).len() == 2,
        all_digits(two(n)),
        digits_value(two(n)) == n,
        two(n)[0] == '0' <==> n < 10,
        n < 10 ==> two(n) == seq!['0'] + decimal(n as nat),
{
    padded_decimals_read_back(n as nat, 2);
    decimals_read_back(n as nat);
    if n < 10 {
        reveal_with_fuel(zero_padded, 2);
        assert(decimal(n as nat).len() == 1);
    } else {
        assert(n / 10 < 10);
        reveal_with_fuel(decimal, 2);
    }
}

/// The clock says the time. Its first number is the hour, on the 12-hour clock the one that the dial
/// shows and without a zero in front; behind a colon stand the minutes, and behind another the
/// seconds where they are wanted; the 12-hour clock says at the end which half of the day it is. The
/// position returned is that of the first colon.
pub proof fn the_clock_says_the_time(h: int, m: int, s: int, h24: bool, secs: bool) -> (k: int)
    requires
        0 <= h < 24,
        0 <= m < 60,
        0 <= s < 60,
    ensures
        ({
            let t = clock_text(h, m, s, h24, secs);
            let hour = digits_value(t.take(k));
            let end = k + (if secs {
                6int
            } else {
                3
            });
            &&& 1 <= k <= 2 && t.len() == end + (if h24 {
                0int
            } else {
                3
            })
            &&& all_digits(t.take(k))
            &&& h24 ==> k == 2 && hour == h
            &&& !h24 ==> 1 <= hour <= 12 && hour % 12 == (h % 12) as nat && t[0] != '0'
            &&& t[k] == ':' && digits_value(t.subrange(k + 1, k + 3)) == m
            &&& secs ==> t[k + 3] == ':' && digits_value(t.subrange(k + 4, k + 6)) == s
            &&& !h24 && h < 12 ==> t.skip(end) == " AM"@
            &&& !h24 && h >= 12 ==> t.skip(end) == " PM"@
        }),
{
    reveal_strlit(" AM");
    reveal_strlit(" PM");
    let t = clock_text(h, m, s, h24, secs);
    let full = time_of_day(h, m, s, h24, secs);
    let x = if h24 {
        h
    } else {
        dial_hour(h)
    };
    lemma_two(x);
    lemma_two(m);
    lemma_two(s);
    decimals_read_back(x as nat);
    let cut: int = if !h24 && x < 10 {
        1
    } else {
        0
    };
    let k = 2 - cut;
    if !h24 {
        assert(full[0] == two(x)[0]);
        if x < 10 {
            assert(full.drop_first()[0] == decimal(x as nat)[0]);
            assert(full.drop_first()[0] != '0');
            reveal_with_fuel(without_zeros, 2);
        }
    }
    assert(t =~= full.skip(cut));
    assert(t.take(k) =~= two(x).skip(cut));
    if cut == 1 {
        assert(two(x).skip(1) =~= decimal(x as nat));
    } else {
        assert(two(x).skip(0) =~= two(x));
    }
    assert(t.subrange(k + 1, k + 3) =~= two(m));
    if secs {
        assert(t.subrange(k + 4, k + 6) =~= two(s));
    }
    let end = k + (if secs {
        6int
    } else {
        3
    });
    if !h24 {
        assert(t.skip(end) =~= half_of_day(h));
    }
    k
}

/// The port of an address is the number between its last colon and the slash behind that, or its
/// end; one whose last colon is that of its scheme has none, and 8083 stands for it.
pub proof fn the_port_stands_behind_the_colon(a: Seq<char>, p: nat, b: Seq<char>)
    requires
        p <= 65535,
        !b.contains(':'),
    ensures
        port_in(a.push(':') + decimal(p)) == p,
        port_in(a.push(':') + (decimal(p).push('/') + b)) == p,
        port_in(a.push(':') + (Seq::empty().push('/') + b)) == 8083,
{
    let d = decimal(p);
    decimals_read_back(p);
    assert(!d.contains(':') && !d.contains('/')) by {
        if d.contains(':') {
            let k = choose|k: int| 0 <= k < d.len() && d[k] == ':';
            assert('0' <= d[k] <= '9');
        }
        if d.contains('/') {
            let k = choose|k: int| 0 <= k < d.len() && d[k] == '/';
            assert('0' <= d[k] <= '9');
        }
    }
    the_last_piece_is_the_rest(a, d, ':');
    the_last_piece_is_the_rest(d, b, '/');
    let u = d.push('/') + b;
    let v = Seq::<char>::empty().push('/') + b;
    assert(!u.contains(':')) by {
        if u.contains(':') {
            let k = choose|k: int| 0 <= k < u.len() && u[k] == ':';
            if k < d.len() {
                assert(d[k] == ':');
            } else {
                assert(b[k - d.len() - 1] == ':');
            }
        }
    }
    assert(!v.contains(':')) by {
        if v.contains(':') {
            let k = choose|k: int| 0 <= k < v.len() && v[k] == ':';
            assert(b[k - 1] == ':');
        }
    }
    the_last_piece_is_the_rest(a, u, ':');
    the_last_piece_is_the_rest(a, v, ':');
    assert(!Seq::<char>::empty().contains('/'));
    the_last_piece_is_the_rest(Seq::empty(), b, '/');
}

/// In the page's address a name is written byte by byte: a space as a plus sign, a comma by its
/// number, all else as it is.
pub proof fn names_are_written_byte_by_byte(a: Seq<u8>, b: Seq<u8>, x: u8)
    ensures
        query_text(a + b) == query_text(a) + query_text(b),
        x == 32 ==> query_text(seq![x]) == seq!['+'],
        x == 44 ==> query_text(seq![x]) == seq!['%', '2', 'C'],
        x != 32 && x != 44 ==> query_text(seq![x]) == seq![x as char],
    decreases b.len(),
{
    reveal_with_fuel(query_text, 2);
    assert(seq![x].drop_last() =~= Seq::empty());
    assert(Seq::<char>::empty() + query_byte(x) =~= query_byte(x));
    if b.len() > 0 {
        names_are_written_byte_by_byte(a, b.drop_last(), x);
        assert((a + b).drop_last() =~= a + b.drop_last());
        assert(query_text(a + b) =~= query_text(a) + query_text(b));
    } else {
        assert(a + b =~= a);
        assert(query_text(a) + query_text(b) =~= query_text(a));
    }
}

/// The page is asked of the server that is set, where one is. Its address begins with the server's,
/// goes on as a question or as one more part of one, and names the place, how far north it is and
/// how far east, in this order. The positions returned are those of the three.
pub proof fn the_page_is_asked_for_the_place(s: SettingsView) -> (at: (int, int, int))
    ensures
        s.weather_url.len() == 0 <==> s.weather_address() is None,
        s.weather_address() matches Some(t) ==> {
            let n = s.weather_url.len() as int;
            let place = query_text(encode_utf8(s.weather_location));
            &&& t.take(n) == s.weather_url
            &&& t[n] == '?' <==> !s.weather_url.contains('?')
            &&& t[n] == '&' <==> s.weather_url.contains('?')
            &&& occurs_at(t, "latLonQuery="@ + place, at.0) && at.0 == n + 1
            &&& occurs_at(t, "%22lat%22%3A"@ + s.weather_lat + "%2C"@, at.1) && at.0 < at.1
            &&& occurs_at(t, "%22lon%22%3A"@ + s.weather_lon + "%7D"@, at.2) && at.1 < at.2
        },
{
    reveal_strlit("latLonQuery=");
    reveal_strlit("&latLon=%7B%22lat%22%3A");
    reveal_strlit("%22lat%22%3A");
    reveal_strlit("%2C%22lon%22%3A");
    reveal_strlit("%22lon%22%3A");
    reveal_strlit("%2C");
    reveal_strlit("%7D");
    reveal_strlit("%7D&settings-kiosk-checkbox=true");
    let n = s.weather_url.len() as int;
    let place = query_text(encode_utf8(s.weather_location));
    let x = n + 1;
    let y = x + 12 + place.len() + 11;
    let z = y + 12 + s.weather_lat.len() + 3;
    if let Some(t) = s.weather_address() {
        assert(t.take(n) =~= s.weather_url);
        let p = "latLonQuery="@ + place;
        assert(t.subrange(x, x + p.len()) =~= p);
        let q = "%22lat%22%3A"@ + s.weather_lat + "%2C"@;
        assert(t.subrange(y, y + q.len()) =~= q);
        let r = "%22lon%22%3A"@ + s.weather_lon + "%7D"@;
        assert(t.subrange(z, z + r.len()) =~= r);
    }
    (x, y, z)
}

proof fn lemma_distinct_names(stems: Seq<Seq<char>>)
    ensures
        ({
            let d = distinct_names(stems);
            &&& d.len() <= stems.len()
            &&& forall|i: int, j: int|
                0 <= i < j < d.len() ==> !same_ignoring_case(#[trigger] d[i], #[trigger] d[j])
            &&& forall|i: int| 0 <= i < d.len() ==> (#[trigger] d[i]).len() > 0
            &&& forall|k: int|
                0 <= k < stems.len() && cleaned(#[trigger] stems[k]).len() > 0 ==> listed(
                    d,
                    cleaned(stems[k]),
                )
        }),
    decreases stems.len(),
{
    if stems.len() > 0 {
        let t = stems.drop_last();
        lemma_distinct_names(t);
        let (d, e) = (distinct_names(stems), distinct_names(t));
        let name = cleaned(stems.last());
        likeness_is_about_letters(name, name, name, 'a', 'a');
        assert forall|k: int|
            0 <= k < stems.len() && cleaned(#[trigger] stems[k]).len() > 0 implies listed(
            d,
            cleaned(stems[k]),
        ) by {
            if k < t.len() {
                assert(t[k] == stems[k]);
                let i = choose|i: int|
                    0 <= i < e.len() && same_ignoring_case(#[trigger] e[i], cleaned(stems[k]));
                assert(d[i] == e[i]);
            } else if !listed(e, name) {
                assert(d[e.len() as int] == name);
            }
        }
        assert forall|i: int, j: int| 0 <= i < j < d.len() implies !same_ignoring_case(
            #[trigger] d[i],
            #[trigger] d[j],
        ) by {
            if j < e.len() {
                assert(d[i] == e[i] && d[j] == e[j]);
            } else {
                assert(d[i] == e[i] && d[j] == name);
            }
        }
        assert forall|i: int| 0 <= i < d.len() implies (#[trigger] d[i]).len() > 0 by {
            if i < e.len() {
                assert(d[i] == e[i]);
            }
        }
    }
}

/// The names for the lineup editor: each logo's name is listed, once whatever the case of its
/// letters, none is empty, and they stand in alphabetical order, whatever the case.
pub proof fn each_logo_is_named_once(stems: Seq<Seq<char>>)
    requires
        stems.len() <= usize::MAX,
    ensures
        ({
            let r = in_name_order(distinct_names(stems));
            &&& forall|i: int, j: int|
                0 <= i < j < r.len() ==> !text_lt(
                    lowercase(#[trigger] r[j]),
                    lowercase(#[trigger] r[i]),
                ) && !same_ignoring_case(r[i], r[j])
            &&& forall|i: int| 0 <= i < r.len() ==> (#[trigger] r[i]).len() > 0
            &&& forall|k: int|
                0 <= k < stems.len() && cleaned(#[trigger] stems[k]).len() > 0 ==> listed(
                    r,
                    cleaned(stems[k]),
                )
        }),
{
    lemma_distinct_names(stems);
    let d = distinct_names(stems);
    let low = d.map_values(|n: Seq<char>| lowercase(n));
    let p = sort_by(numbers(d.len()), low);
    sorting_is_stable(numbers(d.len()), low);
    lemma_permuted_numbers(p, d.len());
    let r = in_name_order(d);
    assert forall|i: int, j: int| 0 <= i < j < r.len() implies !text_lt(
        lowercase(#[trigger] r[j]),
        lowercase(#[trigger] r[i]),
    ) && !same_ignoring_case(r[i], r[j]) by {
        assert(!text_lt(low[p[j] as int], low[p[i] as int]));
        assert(p[i] != p[j]);
        likeness_is_about_letters(r[i], r[j], r[i], 'a', 'a');
        likeness_is_about_letters(r[j], r[i], r[j], 'a', 'a');
        if p[i] < p[j] {
            assert(!same_ignoring_case(d[p[i] as int], d[p[j] as int]));
        } else {
            assert(!same_ignoring_case(d[p[j] as int], d[p[i] as int]));
        }
    }
    assert forall|i: int| 0 <= i < r.len() implies (#[trigger] r[i]).len() > 0 by {
        assert(r[i] == d[p[i] as int]);
    }
    assert forall|k: int|
        0 <= k < stems.len() && cleaned(#[trigger] stems[k]).len() > 0 implies listed(
        r,
        cleaned(stems[k]),
    ) by {
        let i = choose|i: int|
            0 <= i < d.len() && same_ignoring_case(#[trigger] d[i], cleaned(stems[k]));
        assert(p.contains(i as usize));
        let j = choose|j: int| 0 <= j < p.len() && p[j] == i as usize;
        assert(r[j] == d[i]);
    }
}

/// A colour is what its name says: green is greener than red or blue, white is as much of all three,
/// amber more red than green and more green than blue, cyan has the least of red, and magenta the
/// least of green.
pub proof fn colours_are_what_they_are_called(i: int)
    ensures
        ({
            let c = hud_rgb(i) as int;
            let (r, g, b) = (c / 65536, c / 256 % 256, c % 256);
            &&& 0 <= r < 256
            &&& hud_text(i) == "GREEN"@ ==> g > 2 * r && g > 2 * b
            &&& hud_text(i) == "WHITE"@ ==> r == g == b && r > 200
            &&& hud_text(i) == "AMBER"@ ==> r > g > 2 * b
            &&& hud_text(i) == "CYAN"@ ==> g > 2 * r && b > 2 * r
            &&& hud_text(i) == "MAGENTA"@ ==> r > 2 * g && b > 2 * g
        }),
{
    reveal_strlit("GREEN");
    reveal_strlit("WHITE");
    reveal_strlit("AMBER");
    reveal_strlit("CYAN");
    reveal_strlit("MAGENTA");
    assert("GREEN"@[0] == 'G' && "WHITE"@[0] == 'W' && "AMBER"@[0] == 'A' && "CYAN"@[0] == 'C'
        && "MAGENTA"@[0] == 'M');
}

/// The files live beside the program where they can be written there; else in a folder of their own,
/// within the one that the system names for the user, where it names one. On Windows what the other
/// systems name does not count, nor the other way round.
pub proof fn the_system_names_the_users_folder(s: Surroundings, d: String)
    ensures
        s.windows ==> user_base(Surroundings { local_app_data: Some(d), ..s }) == d@,
        !s.windows ==> user_base(Surroundings { xdg_config_home: Some(d), ..s }) == d@,
        !s.windows && s.xdg_config_home is None ==> ({
            let u = user_base(Surroundings { home: Some(d), ..s });
            &&& u.len() >= 7 && u.skip(u.len() - 7) == ".config"@
            &&& u.len() >= d@.len() && u.take(d@.len() as int) == d@
        }),
        s.windows ==> user_base(Surroundings { home: Some(d), ..s }) == user_base(s) && user_base(
            Surroundings { xdg_config_home: Some(d), ..s },
        ) == user_base(s),
        !s.windows ==> user_base(Surroundings { local_app_data: Some(d), ..s }) == user_base(s),
        s.local_app_data is None && s.xdg_config_home is None && s.home is None ==> user_base(s)
            == s.exe_dir@,
{
    reveal_strlit(".config");
    a_name_stands_in_its_folder(s.windows, d@, ".config"@);
}

} // verus!
