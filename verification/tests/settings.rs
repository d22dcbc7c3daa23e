use tuner::settings::{
    aspect_name, config_dir, date_at, date_line, date_now, folder_list, hour_now, hud_name,
    menu_label, menu_restart, onoff, weather_port, Lineup, LineupChannel, Settings,
    Surroundings, MENU_LEN, MENU_ZIP,
};

fn strings(v: &[&str]) -> Vec<String> {
    v.iter().map(|s| s.to_string()).collect()
}

fn here() -> Surroundings {
    Surroundings {
        exe_dir: "/opt/tuner".to_string(),
        writable: false,
        windows: false,
        local_app_data: None,
        xdg_config_home: None,
        home: None,
    }
}

#[test]
fn fresh_settings() {
    let s = Settings::default();
    assert!(!s.crt && s.logos && s.clocks && s.ticker && s.bumpers && s.snow && s.music);
    assert!(!s.clock_24h);
    assert_eq!((s.crt_curve, s.crt_scan, s.crt_noise, s.crt_vignette), (45_000, 1_000_000, 35_000, 220_000));
    assert_eq!((s.overscan, s.aspect, s.hud, s.channels), (0, 0, 0, 20));
    assert_eq!(s.weather_location, "Cleveland, OH");
    assert_eq!((s.weather_lat.as_str(), s.weather_lon.as_str()), ("41.4993", "-81.6944"));
    assert_eq!(s.content_dir, "content");
    assert_eq!(s.weather_page(), None);
    assert_eq!(s.clone().content_dir, "content");
}

#[test]
fn settings_are_kept_next_to_the_program_if_they_can_be() {
    let mut s = here();
    s.writable = true;
    assert_eq!(config_dir(&s), "/opt/tuner");
    s.writable = false;
    assert_eq!(config_dir(&s), "/opt/tuner/tuner");
    s.home = Some("/home/me".to_string());
    assert_eq!(config_dir(&s), "/home/me/.config/tuner");
    s.xdg_config_home = Some("/cfg".to_string());
    assert_eq!(config_dir(&s), "/cfg/tuner");
    s.windows = true;
    s.exe_dir = "C:\\Tuner".to_string();
    assert_eq!(config_dir(&s), "C:\\Tuner\\tuner");
    s.local_app_data = Some("C:\\Local".to_string());
    assert_eq!(config_dir(&s), "C:\\Local\\tuner");
    s.writable = true;
    assert_eq!(config_dir(&s), "C:\\Tuner");
    assert_eq!(Settings::path("/cfg/tuner", false), "/cfg/tuner/tuner_settings.json");
    assert_eq!(Lineup::path("/cfg/tuner", false), "/cfg/tuner/tuner_lineup.json");
}

#[test]
fn the_lineup_reaches_to_its_highest_channel() {
    let ch = |number: usize| LineupChannel { number, ..LineupChannel::default() };
    assert_eq!(Lineup::default().highest(), 0);
    assert_eq!(Lineup { channels: vec![ch(3), ch(30), ch(7)] }.highest(), 30);
}

#[test]
fn menu_rows_show_their_values() {
    let s = Settings::default();
    let want = [
        "OFF", "45%", "100%", "35%", "44%", "+0%", "FIT", "GREEN", "ON", "ON", "ON", "ON", "ON",
        "ON", "OFF", "-----",
    ];
    for i in 0..MENU_LEN {
        assert_eq!(s.value(i), want[i]);
    }
    assert_eq!(menu_label(0), "CRT TUBE");
    assert_eq!(menu_label(MENU_ZIP), "WEATHER ZIP");
    assert!((0..MENU_LEN).all(|i| menu_restart(i) == (i == 11)));
    assert_eq!(onoff(true), "ON");
    assert_eq!(onoff(false), "OFF");
    assert_eq!(aspect_name(2), "16:9");
    assert_eq!(aspect_name(99), "STRETCH");
    assert_eq!(hud_name(99), "MAGENTA");
}

#[test]
fn percentages_match_their_fractions() {
    let mut s = Settings::default();
    for n in 0..=20 {
        s.overscan = (n - 10) * 10_000;
        assert_eq!(s.value(5), format!("{:+}%", n - 10));
        s.crt_vignette = n * 25_000;
        assert_eq!(s.value(4), format!("{:.0}%", n as f32 * 0.025 * 200.0));
    }
}

#[test]
fn rows_step_clamp_and_cycle() {
    let mut s = Settings::default();
    s.adjust(0, 1);
    assert!(s.crt);
    for _ in 0..20 {
        s.adjust(1, 1);
    }
    assert_eq!(s.crt_curve, 120_000);
    for _ in 0..20 {
        s.adjust(1, -1);
    }
    assert_eq!(s.crt_curve, 0);
    s.adjust(2, -1);
    assert_eq!(s.crt_scan, 900_000);
    s.adjust(6, -1);
    assert_eq!(s.aspect, 3);
    s.adjust(6, 1);
    assert_eq!(s.aspect, 0);
    s.adjust(7, -1);
    assert_eq!(s.hud, 4);
    assert_eq!(s.hud_color(), 0x00_f0_40_d0);
    s.hud = 77;
    assert_eq!(s.hud_color(), 0x00_f0_40_d0);
    for _ in 0..30 {
        s.adjust(5, -1);
    }
    assert_eq!(s.overscan, -100_000);
    s.adjust(MENU_ZIP, 1);
    assert_eq!(s.weather_zip, "");
}

#[test]
fn a_step_and_back_changes_nothing() {
    for i in 0..MENU_LEN {
        let mut s = Settings::default();
        // Away from its limit.
        s.crt_scan = 500_000;
        let before: Vec<String> = (0..MENU_LEN).map(|k| s.value(k)).collect();
        s.adjust(i, 1);
        s.adjust(i, -1);
        let after: Vec<String> = (0..MENU_LEN).map(|k| s.value(k)).collect();
        assert_eq!(before, after);
    }
}

#[test]
fn the_weather_page_carries_the_place() {
    let mut s = Settings::default();
    s.weather_url = "http://localhost:8083".to_string();
    assert_eq!(
        s.weather_page().unwrap(),
        "http://localhost:8083?latLonQuery=Cleveland%2C+OH&latLon=%7B%22lat%22%3A41.4993%2C%22lon%22%3A-81.6944%7D&settings-kiosk-checkbox=true"
    );
    s.weather_url = "http://x/?a=1".to_string();
    assert!(s.weather_page().unwrap().starts_with("http://x/?a=1&latLonQuery="));
    assert_eq!(weather_port("http://localhost:8083"), 8083);
    assert_eq!(weather_port("http://localhost:9000/x?y"), 9000);
    assert_eq!(weather_port("http://localhost"), 8083);
    assert_eq!(weather_port("http://localhost:70000"), 8083);
}

#[test]
fn clocks_read_like_a_set() {
    let mut s = Settings::default();
    assert_eq!(s.clock_at(9, 5, 7, true), "9:05:07 AM");
    assert_eq!(s.clock_at(0, 5, 7, false), "12:05 AM");
    assert_eq!(s.clock_at(13, 0, 0, false), "1:00 PM");
    s.clock_24h = true;
    assert_eq!(s.clock_at(9, 5, 7, true), "09:05:07");
    assert_eq!(s.clock_at(0, 5, 7, false), "00:05");
    let c = s.clock(false);
    assert_eq!(c.len(), 5);
    assert_eq!(&c[2..3], ":");
    assert!(hour_now() < 24);
}

#[test]
fn the_date_is_written_out() {
    assert_eq!(date_at(1999, 12, 31), "FRI DEC 31");
    assert_eq!(date_at(2024, 2, 29), "THU FEB 29");
    assert_eq!(date_at(2023, 2, 29), "");
    assert_eq!(date_line(&Some("Mon 1".to_string())), "MON 1");
    assert_eq!(date_at(2000, 1, 3), "MON JAN  3");
    assert_eq!(date_now().len(), 10);
}

#[test]
fn logo_names_are_clean_distinct_and_sorted() {
    assert_eq!(folder_list(" a ;; b"), strings(&["a", "b"]));
    let stems = strings(&["MTV (1987)", "hbo", "HBO (2)", " ", "abc"]);
    assert_eq!(Settings::logo_names(&stems), strings(&["abc", "hbo", "MTV"]));
}
