//! Everything over the picture in one frame, layer by layer.

use vstd::prelude::*;
use crate::draw::{
    all_within, ink, op_views, put, drawable, Op, OpView, GUIDE_GRAY, GUIDE_WHITE,
};
use crate::dressing::{
    draw_dressing, dressed, opt_text, the_dressing_fits, the_dressing_is_what_is_allowed,
};
use crate::guide::{
    cells_stand_under_their_headers, channel_in_row, draw_guide, draw_guide_frame, ease, grid_end,
    grid_rows, guide_frame, guide_screen, row_channel, row_top, the_guide_fits, visible_rows,
    GuideView,
};
use crate::num::part_of;
use crate::networks::ChanStyle;
use crate::picture::{has_dressing, Layers};
use crate::screens::{
    banner_screen, draw_banner, draw_help, draw_menu, draw_mute, draw_number, draw_volume,
    help_screen, lemma_help_extends, lemma_menu_screen_extends, lemma_volume_extends, menu_rows,
    menu_screen, menu_top, mute_screen, number_screen, rows_show_their_values,
    the_banner_fits, the_banner_says_what_is_on, the_legend_fits, the_menu_cursor_is_visible,
    the_number_shows_the_channel, the_volume_bar_fits, volume_screen, MENU_ROWS,
};
use crate::library::begins_with;
use crate::settings::{hud_rgb, menu_text, SettingsView, MENU_LEN, MENU_ZIP};
use crate::station::{ChanInfo, Station};
use crate::text::{all_digits, decimal_padded, digits_value};
use crate::tv::{digits_for, Tv, TvView};

verus! {

/// What the layers of a frame are made of besides the set's own state: looked up and measured for
/// this frame. Widths are pixels, those of crawls thousandths of a pixel.
pub struct Props {
    /// What is on: on the channel, or on the one that the guide previews.
    pub info: ChanInfo,
    /// What is on in the rows of the guide's grid, while the guide is on.
    pub infos: Vec<ChanInfo>,
    pub date: String,
    pub clock: String,
    /// The corner clock, at the times when the channel shows one.
    pub corner: Option<String>,
    /// The news.
    pub news: String,
    /// The music that the guide plays.
    pub music: String,
    /// Where the settings are kept.
    pub path: String,
    /// The size of the network's logo, where it has one.
    pub logo: Option<(u32, u32)>,
    pub head_w: i32,
    pub volume_w: i32,
    pub menu_w: i32,
    pub tag_w: u32,
    pub news_w: i64,
    pub ticker_w: i64,
}

/// Widths and times that the layers can be drawn with.
pub open spec fn props_fit(p: Props) -> bool {
    &&& 0 < p.info.of
    &&& p.info.done <= p.info.of
    &&& 0 <= p.head_w <= 0x1fff_ffff
    &&& 0 <= p.volume_w <= 0x1fff_ffff
    &&& 0 <= p.menu_w <= 0x1fff_ffff
    &&& p.tag_w <= 0x1fff_ffff
    &&& 0 < p.news_w <= 0x7f_ffff_ffff
    &&& 0 < p.ticker_w <= 0xff_ffff_ffff
    &&& p.logo matches Some(l) ==> l.0 <= 0x3fff_ffff && l.1 <= 0x3fff_ffff
}

/// The guide as the set stands.
pub open spec fn guide_view(t: TvView, p: Props, now: i64) -> GuideView {
    GuideView {
        preview: t.preview,
        sel: t.guide_sel,
        top: t.guide_top,
        since_step: (now - t.guide_step_at) as i64,
        auto: t.guide_auto,
        music: p.music,
        now,
    }
}

/// The lowest layer: the guide, or what the channel puts over its own picture.
pub open spec fn ground(t: TvView, st: Station, l: Layers, p: Props, now: i64, w: int, h: int) -> Seq<
    OpView,
> {
    if l.guide {
        guide_screen(
            guide_frame(w, h),
            guide_view(t, p, now),
            p.info,
            st.count() - 1,
            p.infos@,
            p.date@,
            p.clock@,
            p.ticker_w as int,
            w,
            h,
        )
    } else if l.dress {
        dressed(
            seq![OpView::Clear(0)],
            t.settings,
            st.styles@[t.cur as int],
            st.nets@[st.styles@[t.cur as int].net as int].name@,
            p.news@,
            p.tag_w as int,
            p.news_w as int,
            now as int,
            opt_text(p.corner),
            p.logo,
            w,
            h,
        )
    } else {
        seq![OpView::Clear(0)]
    }
}

/// The channel number and the cable box's banner on top of `v`.
pub open spec fn labels(
    v: Seq<OpView>,
    t: TvView,
    st: Station,
    l: Layers,
    p: Props,
    w: int,
    h: int,
) -> Seq<OpView> {
    let hud = hud_rgb(t.settings.hud as int);
    let a = if l.number {
        number_screen(v, t.cur as int, t.entry, digits_for(st.count()), hud, w, h)
    } else {
        v
    };
    if l.banner {
        banner_screen(a, t.cur as int, p.info, p.clock@, p.head_w as int, hud, w, h)
    } else {
        a
    }
}

/// The volume bar, the legend and the menu on top of `v`.
pub open spec fn panels(v: Seq<OpView>, t: TvView, l: Layers, p: Props, w: int, h: int) -> Seq<OpView> {
    let hud = hud_rgb(t.settings.hud as int);
    let a = match t.audio {
        Some(s) => if l.volume {
            volume_screen(v, s.volume as int, s.muted, p.volume_w as int, hud, w, h)
        } else if l.mute {
            mute_screen(v, hud, w, h)
        } else {
            v
        },
        None => v,
    };
    let b = if l.help {
        help_screen(a, hud, w, h)
    } else {
        a
    };
    match t.menu {
        Some(sel) => menu_screen(
            b,
            t.settings,
            sel as int,
            t.menu_zip,
            t.geo,
            p.path@,
            p.menu_w as int,
            hud,
            w,
            h,
        ),
        None => b,
    }
}

/// The overlay of a frame at `now`.
pub open spec fn overlay_screen(t: TvView, st: Station, p: Props, now: i64, w: int, h: int) -> Seq<
    OpView,
> {
    let l = t.layers(st, now as int, w, h);
    panels(labels(ground(t, st, l, p, now, w, h), t, st, l, p, w, h), t, l, p, w, h)
}

impl Tv {
    /// What is on, for a frame of height `h`: on the channel whose pictures are shown, and, while
    /// the guide is on, on the channel in each row of its grid, from the top. A window in which no
    /// grid is drawn has no rows.
    pub fn listings(&self, st: &Station, epoch: u64, h: u32) -> (r: (ChanInfo, Vec<ChanInfo>))
        requires
            st.wf(),
            self@.wf(st.count()),
        ensures
            st.tells(self@.source() as int, epoch as int, r.0),
            0 < r.0.of,
            r.0.done <= r.0.of,
            r.1@.len() == (if self@.cur == 0 && 200 <= h <= 0x3fff_ffff {
                grid_rows(h as int)
            } else {
                0
            }),
            forall|i: int|
                0 <= i < r.1@.len() ==> st.tells(
                    row_channel(self@.guide_top as int, i, st.count() - 1),
                    epoch as int,
                    #[trigger] r.1@[i],
                ),
    {
        let info = st.chan_info(self.source(), epoch);
        let rows: usize = if self.cur == 0 && 200 <= h && h <= 0x3fff_ffff {
            visible_rows(h)
        } else {
            0
        };
        let n: usize = st.scheds.len() - 1;
        let mut infos: Vec<ChanInfo> = Vec::new();
        while infos.len() < rows
            invariant
                infos@.len() <= rows,
                st.wf(),
                n == st.count() - 1,
                forall|i: int|
                    0 <= i < infos@.len() ==> st.tells(
                        row_channel(self@.guide_top as int, i, st.count() - 1),
                        epoch as int,
                        #[trigger] infos@[i],
                    ),
            decreases rows - infos@.len(),
        {
            let ch = channel_in_row(self.guide_top, infos.len(), n);
            infos.push(st.chan_info(ch, epoch));
        }
        (info, infos)
    }

    fn draw_labels(
        &self,
        out: &mut Vec<Op>,
        st: &Station,
        l: &Layers,
        p: &Props,
        clock: String,
        w: u32,
        h: u32,
    )
        requires
            st.wf(),
            self@.wf(st.count()),
            drawable(w as int, h as int),
            props_fit(*p),
            clock@ == p.clock@,
        ensures
            op_views(final(out)@) == labels(
                op_views(old(out)@),
                self@,
                *st,
                *l,
                *p,
                w as int,
                h as int,
            ),
    {
        let hud = self.settings.hud_color();
        if l.number {
            let nd = Tv::digits(st);
            draw_number(out, self.cur, self.entry.as_str(), nd, hud, w, h);
        }
        if l.banner {
            draw_banner(out, self.cur, &p.info, clock, p.head_w, hud, w, h);
        }
    }

    fn draw_sound(&self, out: &mut Vec<Op>, l: &Layers, volume_w: i32, w: u32, h: u32)
        requires
            drawable(w as int, h as int),
            0 <= volume_w <= 0x1fff_ffff,
        ensures
            op_views(final(out)@) == ({
                let hud = hud_rgb(self@.settings.hud as int);
                let v = op_views(old(out)@);
                match self@.audio {
                    Some(s) => if l.volume {
                        volume_screen(
                            v,
                            s.volume as int,
                            s.muted,
                            volume_w as int,
                            hud,
                            w as int,
                            h as int,
                        )
                    } else if l.mute {
                        mute_screen(v, hud, w as int, h as int)
                    } else {
                        v
                    },
                    None => v,
                }
            }),
    {
        let hud = self.settings.hud_color();
        if let Some(s) = self.audio {
            if l.volume {
                draw_volume(out, s.volume, s.muted, volume_w, hud, w, h);
            } else if l.mute {
                draw_mute(out, hud, w, h);
            }
        }
    }

    fn draw_panels(&self, out: &mut Vec<Op>, l: &Layers, p: &Props, w: u32, h: u32)
        requires
            self.menu matches Some(i) ==> i < MENU_LEN,
            drawable(w as int, h as int),
            props_fit(*p),
        ensures
            op_views(final(out)@) == panels(op_views(old(out)@), self@, *l, *p, w as int, h as int),
    {
        self.draw_sound(out, l, p.volume_w, w, h);
        if l.help {
            draw_help(out, self.settings.hud_color(), w, h);
        }
        if let Some(sel) = self.menu {
            draw_menu(
                out,
                &self.settings,
                sel,
                self.menu_zip.as_str(),
                self.geo,
                p.path.as_str(),
                p.menu_w,
                w,
                h,
            );
        }
    }

    /// Draws the overlay of a frame at `now`: the guide or the channel's dressing, the channel
    /// number, the banner, the volume bar, the legend and the menu, each over the ones before it.
    pub fn draw_overlay(&self, st: &Station, p: &Props, now: i64, w: u32, h: u32) -> (r: Vec<Op>)
        requires
            st.wf(),
            self@.wf(st.count()),
            drawable(w as int, h as int),
            props_fit(*p),
            self.cur == 0 ==> p.infos@.len() >= grid_rows(h as int),
            self.guide_step_at <= now,
        ensures
            op_views(r@) == overlay_screen(self@, *st, *p, now, w as int, h as int),
    {
        let l = self.layers(st, now, w, h);
        let mut out: Vec<Op> = Vec::new();
        assert(op_views(out@) =~= Seq::empty());
        if l.guide {
            let g = GuideView {
                preview: self.preview,
                sel: self.guide_sel,
                top: self.guide_top,
                since_step: now - self.guide_step_at,
                auto: self.guide_auto,
                music: p.music.clone(),
                now,
            };
            out = draw_guide_frame(w, h);
            draw_guide(
                &mut out,
                &g,
                &p.info,
                st.scheds.len() - 1,
                &p.infos,
                p.date.clone(),
                p.clock.clone(),
                p.ticker_w,
                w,
                h,
            );
        } else {
            put(&mut out, Op::Clear(0));
            assert(op_views(out@) =~= seq![OpView::Clear(0)]);
            if l.dress {
                let corner = match &p.corner {
                    Some(c) => Some(c.clone()),
                    None => None,
                };
                let style = st.styles[self.cur];
                draw_dressing(
                    &mut out,
                    &self.settings,
                    &style,
                    st.nets[style.net].name.as_str(),
                    p.news.as_str(),
                    p.tag_w,
                    p.news_w,
                    now,
                    corner,
                    p.logo,
                    w,
                    h,
                );
            }
        }
        assert(op_views(out@) == ground(self@, *st, l, *p, now, w as int, h as int));
        self.draw_labels(&mut out, st, &l, p, p.clock.clone(), w, h);
        self.draw_panels(&mut out, &l, p, w, h);
        out
    }
}

proof fn lemma_rows_fit(
    out: Seq<OpView>,
    s: SettingsView,
    sel: int,
    zip: Seq<char>,
    top: int,
    label_w: int,
    px: int,
    row: int,
    lx: int,
    vx: int,
    b: int,
    hud: u32,
    n: int,
    w: int,
    h: int,
)
    requires
        all_within(out, w, h),
    ensures
        all_within(menu_rows(out, s, sel, zip, top, label_w, px, row, lx, vx, b, hud, n), w, h),
    decreases n,
{
    if n > 0 {
        lemma_rows_fit(out, s, sel, zip, top, label_w, px, row, lx, vx, b, hud, n - 1, w, h);
    }
}

proof fn lemma_menu_fits(
    out: Seq<OpView>,
    s: SettingsView,
    sel: int,
    zip: Seq<char>,
    geocoding: bool,
    path: Seq<char>,
    label_w: int,
    hud: u32,
    w: int,
    h: int,
)
    requires
        all_within(out, w, h),
    ensures
        all_within(menu_screen(out, s, sel, zip, geocoding, path, label_w, hud, w, h), w, h),
{
    let px = part_of(h, 42);
    let row = px * 1550 / 1000;
    let lx = part_of(w, 140);
    let vx = part_of(w, 860);
    let b0 = part_of(h, 80) + px;
    let b = b0 + row + row / 2;
    let top = menu_top(sel);
    let title = out.push(OpView::Clear(0xFF_00_00_00)).push(
        OpView::Text("SET UP MENU"@, ink(px * 1300 / 1000, lx, b0, GUIDE_WHITE, false)),
    );
    let above = if top > 0 {
        title.push(OpView::Text("^"@, ink(px, vx, b - row, GUIDE_GRAY, true)))
    } else {
        title
    };
    assert(all_within(above, w, h));
    lemma_rows_fit(
        above,
        s,
        sel,
        zip,
        top,
        label_w,
        px,
        row,
        lx,
        vx,
        b,
        hud,
        MENU_ROWS as int,
        w,
        h,
    );
}

/// Nothing of the overlay is drawn outside the window, whatever the set shows, as long as the tag
/// in front of the news fits in it.
pub proof fn the_overlay_fits(t: TvView, st: Station, p: Props, now: i64, w: int, h: int)
    requires
        drawable(w, h),
        props_fit(p),
        p.tag_w + part_of(w, 10) <= w,
        0 <= t.guide_step_at <= now,
    ensures
        all_within(overlay_screen(t, st, p, now, w, h), w, h),
{
    let l = t.layers(st, now as int, w, h);
    let hud = hud_rgb(t.settings.hud as int);
    let g = ground(t, st, l, p, now, w, h);
    if l.guide {
        the_guide_fits(
            guide_view(t, p, now),
            p.info,
            st.count() - 1,
            p.infos@,
            p.date@,
            p.clock@,
            p.ticker_w as int,
            w,
            h,
        );
    } else if l.dress {
        the_dressing_fits(
            seq![OpView::Clear(0)],
            t.settings,
            st.styles@[t.cur as int],
            st.nets@[st.styles@[t.cur as int].net as int].name@,
            p.news@,
            p.tag_w as int,
            p.news_w as int,
            now as int,
            opt_text(p.corner),
            p.logo,
            w,
            h,
        );
    }
    let a = if l.number {
        number_screen(g, t.cur as int, t.entry, digits_for(st.count()), hud, w, h)
    } else {
        g
    };
    the_banner_fits(a, t.cur as int, p.info, p.clock@, p.head_w as int, hud, w, h);
    let b = labels(g, t, st, l, p, w, h);
    let c = match t.audio {
        Some(s) => {
            the_volume_bar_fits(b, s.volume as int, s.muted, p.volume_w as int, hud, w, h);
            if l.volume {
                volume_screen(b, s.volume as int, s.muted, p.volume_w as int, hud, w, h)
            } else if l.mute {
                mute_screen(b, hud, w, h)
            } else {
                b
            }
        },
        None => b,
    };
    the_legend_fits(c, hud, w, h);
    let d = if l.help {
        help_screen(c, hud, w, h)
    } else {
        c
    };
    if let Some(sel) = t.menu {
        lemma_menu_fits(
            d,
            t.settings,
            sel as int,
            t.menu_zip,
            t.geo,
            p.path@,
            p.menu_w as int,
            hud,
            w,
            h,
        );
    }
}

// ---------------------------------------------------------------- what the overlay shows

/// The first of the two begins the second.
spec fn extends(a: Seq<OpView>, b: Seq<OpView>) -> bool {
    &&& a.len() <= b.len()
    &&& forall|k: int| 0 <= k < a.len() ==> #[trigger] b[k] == a[k]
}

proof fn lemma_panels_extend(v: Seq<OpView>, t: TvView, l: Layers, p: Props, w: int, h: int)
    requires
        drawable(w, h),
    ensures
        extends(v, panels(v, t, l, p, w, h)),
{
    let hud = hud_rgb(t.settings.hud as int);
    let a = match t.audio {
        Some(s) => if l.volume {
            volume_screen(v, s.volume as int, s.muted, p.volume_w as int, hud, w, h)
        } else if l.mute {
            mute_screen(v, hud, w, h)
        } else {
            v
        },
        None => v,
    };
    if let Some(s) = t.audio {
        lemma_volume_extends(v, s.volume as int, s.muted, p.volume_w as int, hud, w, h);
    }
    assert(extends(v, a));
    lemma_help_extends(a, hud, w, h);
    let b = if l.help {
        help_screen(a, hud, w, h)
    } else {
        a
    };
    assert(extends(v, b));
    if let Some(sel) = t.menu {
        lemma_menu_screen_extends(
            b,
            t.settings,
            sel as int,
            t.menu_zip,
            t.geo,
            p.path@,
            p.menu_w as int,
            hud,
            w,
            h,
        );
    }
}

/// While the number is shown it is that of the channel that is on, or what was typed of another,
/// in the colour of the display, whatever else is on the screen.
pub proof fn the_overlay_shows_the_channel(
    t: TvView,
    st: Station,
    p: Props,
    now: i64,
    w: int,
    h: int,
) -> (k: int)
    requires
        drawable(w, h),
        all_digits(t.entry),
        t.layers(st, now as int, w, h).number,
    ensures
        0 <= k < overlay_screen(t, st, p, now, w, h).len(),
        overlay_screen(t, st, p, now, w, h)[k] matches OpView::Text(s, a) && a.color == hud_rgb(
            t.settings.hud as int,
        ) && (t.entry.len() == 0 ==> all_digits(s) && digits_value(s) == t.cur && s.len()
            >= digits_for(st.count())) && (0 < t.entry.len() <= digits_for(st.count()) ==> s.take(
            t.entry.len() as int,
        ) == t.entry && s.len() == digits_for(st.count())),
{
    let l = t.layers(st, now as int, w, h);
    let g = ground(t, st, l, p, now, w, h);
    let v = labels(g, t, st, l, p, w, h);
    lemma_panels_extend(v, t, l, p, w, h);
    the_number_shows_the_channel(t.cur as int, t.entry, digits_for(st.count()));
    let k = g.len() as int;
    assert(v[k] is Text);
    assert(overlay_screen(t, st, p, now, w, h)[k] == v[k]);
    k
}

/// While the banner is shown it is about the channel that is on and what is on there, whatever else
/// is on the screen: from where it begins, the head with the number and the network, what is on
/// now, what is next, and the clock.
pub proof fn the_overlay_announces_the_program(
    t: TvView,
    st: Station,
    p: Props,
    now: i64,
    w: int,
    h: int,
) -> (k: int)
    requires
        drawable(w, h),
        props_fit(p),
        t.layers(st, now as int, w, h).banner,
    ensures
        ({
            let s = overlay_screen(t, st, p, now, w, h);
            &&& 0 <= k && k + 3 < s.len()
            &&& s[k] matches OpView::Text(x, a) && digits_value(
                x.take(decimal_padded(t.cur as nat, 2).len() as int),
            ) == t.cur && begins_with(
                x.skip(decimal_padded(t.cur as nat, 2).len() as int + 1),
                p.info.net@,
                12,
            )
            &&& s[k + 1] matches OpView::Text(x, a) && begins_with(x, p.info.now@, 26)
            &&& s[k + 2] matches OpView::Text(x, a) && begins_with(x.skip(6), p.info.next@, 30)
            &&& s[k + 3] matches OpView::Text(x, a) && x == p.clock@
        }),
{
    let l = t.layers(st, now as int, w, h);
    let hud = hud_rgb(t.settings.hud as int);
    let g = ground(t, st, l, p, now, w, h);
    let a = if l.number {
        number_screen(g, t.cur as int, t.entry, digits_for(st.count()), hud, w, h)
    } else {
        g
    };
    let v = labels(g, t, st, l, p, w, h);
    assert(v == banner_screen(a, t.cur as int, p.info, p.clock@, p.head_w as int, hud, w, h));
    the_banner_says_what_is_on(a, t.cur as int, p.info, p.clock@, p.head_w as int, hud, w, h);
    lemma_panels_extend(v, t, l, p, w, h);
    let k = a.len() as int + 2;
    let s = overlay_screen(t, st, p, now, w, h);
    assert(s[k] == v[k] && s[k + 1] == v[k + 1] && s[k + 2] == v[k + 2] && s[k + 3] == v[k + 3]);
    k
}

/// While the volume is shown, the word before its bar says whether the sound is muted, whatever
/// else is on the screen.
pub proof fn the_overlay_shows_the_volume(
    t: TvView,
    st: Station,
    p: Props,
    now: i64,
    w: int,
    h: int,
) -> (k: int)
    requires
        drawable(w, h),
        t.audio is Some,
        t.layers(st, now as int, w, h).volume,
    ensures
        0 <= k < overlay_screen(t, st, p, now, w, h).len(),
        overlay_screen(t, st, p, now, w, h)[k] matches OpView::Text(s, a) && a.color == hud_rgb(
            t.settings.hud as int,
        ) && s == (if t.audio->0.muted {
            "MUTE"@
        } else {
            "VOLUME"@
        }),
{
    let l = t.layers(st, now as int, w, h);
    let hud = hud_rgb(t.settings.hud as int);
    let v = labels(ground(t, st, l, p, now, w, h), t, st, l, p, w, h);
    let s = t.audio->0;
    lemma_volume_extends(v, s.volume as int, s.muted, p.volume_w as int, hud, w, h);
    let a = volume_screen(v, s.volume as int, s.muted, p.volume_w as int, hud, w, h);
    lemma_help_extends(a, hud, w, h);
    let b = if l.help {
        help_screen(a, hud, w, h)
    } else {
        a
    };
    let k = v.len() as int;
    assert(b[k] == a[k]);
    if let Some(sel) = t.menu {
        lemma_menu_screen_extends(
            b,
            t.settings,
            sel as int,
            t.menu_zip,
            t.geo,
            p.path@,
            p.menu_w as int,
            hud,
            w,
            h,
        );
    }
    k
}

/// The open menu covers all that is under it, and the row of its cursor has the label of that row
/// and, between arrows, the value that the settings have there.
pub proof fn the_overlay_shows_the_menu(
    t: TvView,
    st: Station,
    p: Props,
    now: i64,
    w: int,
    h: int,
) -> (k: int)
    requires
        drawable(w, h),
        t.menu is Some,
        t.menu->0 < MENU_LEN,
        t.menu->0 != MENU_ZIP,
    ensures
        ({
            let s = overlay_screen(t, st, p, now, w, h);
            let sel = t.menu->0 as int;
            &&& 0 < k && k + 1 < s.len()
            &&& s[k - 1] matches OpView::Text(x, a) && x == ">"@
            &&& s[k] matches OpView::Text(x, a) && x == menu_text(sel)
            &&& s[k + 1] matches OpView::Text(x, a) && x == "< "@ + t.settings.value_text(sel)
                + " >"@
        }),
{
    let l = t.layers(st, now as int, w, h);
    let hud = hud_rgb(t.settings.hud as int);
    let v = labels(ground(t, st, l, p, now, w, h), t, st, l, p, w, h);
    let a = match t.audio {
        Some(s) => if l.volume {
            volume_screen(v, s.volume as int, s.muted, p.volume_w as int, hud, w, h)
        } else if l.mute {
            mute_screen(v, hud, w, h)
        } else {
            v
        },
        None => v,
    };
    let b = if l.help {
        help_screen(a, hud, w, h)
    } else {
        a
    };
    let sel = t.menu->0 as int;
    the_menu_cursor_is_visible(sel);
    rows_show_their_values(
        b,
        t.settings,
        sel,
        t.menu_zip,
        t.geo,
        p.path@,
        p.menu_w as int,
        hud,
        w,
        h,
        sel,
    )
}

/// Where the guide is on, it is as the set has it: a row of its grid is of the channel so many
/// behind the guide's top, with what is on there, and black in the interactive guide where the
/// cursor is on it; nothing that is shown over it takes it away.
pub proof fn the_overlay_shows_the_guide(
    t: TvView,
    st: Station,
    p: Props,
    now: i64,
    w: int,
    h: int,
    r: int,
) -> (k: int)
    requires
        drawable(w, h),
        t.layers(st, now as int, w, h).guide,
        0 <= r < grid_rows(h),
        t.guide_step_at <= now,
        now - t.guide_step_at <= i64::MAX,
        row_top(r, ease(t.guide_auto, now - t.guide_step_at), h) < grid_end(h) * 1_000_000,
    ensures
        ({
            let s = overlay_screen(t, st, p, now, w, h);
            let ch = 1 + (t.guide_top + r) % (st.count() - 1);
            &&& 0 <= k && k + 3 < s.len()
            &&& s[k] matches OpView::Text(x, a) && x == decimal_padded(ch as nat, 2) && (a.color
                == 0 <==> !t.guide_auto && ch == t.guide_sel)
            &&& s[k + 1] matches OpView::Text(x, a) && begins_with(x, p.infos@[r].net@, 9)
            &&& s[k + 2] matches OpView::Text(x, a) && begins_with(x, p.infos@[r].now@, 20)
            &&& s[k + 3] matches OpView::Text(x, a) && begins_with(x, p.infos@[r].next@, 19)
        }),
{
    let l = t.layers(st, now as int, w, h);
    let g = ground(t, st, l, p, now, w, h);
    let (a, k) = cells_stand_under_their_headers(
        guide_frame(w, h),
        guide_view(t, p, now),
        p.info,
        st.count() - 1,
        p.infos@,
        p.date@,
        p.clock@,
        p.ticker_w as int,
        w,
        h,
        r,
    );
    let v = labels(g, t, st, l, p, w, h);
    assert(extends(g, v));
    lemma_panels_extend(v, t, l, p, w, h);
    let s = overlay_screen(t, st, p, now, w, h);
    assert(v[k] == g[k] && v[k + 1] == g[k + 1] && v[k + 2] == g[k + 2] && v[k + 3] == g[k + 3]);
    assert(s[k] == v[k] && s[k + 1] == v[k + 1] && s[k + 2] == v[k + 2] && s[k + 3] == v[k + 3]);
    k
}

/// The dressing is a layer exactly where it can have something in it: where it is not, whatever the
/// clock and the logo are, nothing would be drawn, and where it is, something is as soon as there is
/// a clock and a logo.
pub proof fn the_dressing_is_drawn_where_there_is_any(
    out: Seq<OpView>,
    s: SettingsView,
    st: ChanStyle,
    net: Seq<char>,
    msg: Seq<char>,
    tag_w: int,
    tw: int,
    now: int,
    clock: Option<Seq<char>>,
    logo: Option<(u32, u32)>,
    w: int,
    h: int,
)
    ensures
        !has_dressing(s, st) ==> dressed(
            out,
            s,
            st,
            net,
            msg,
            tag_w,
            tw,
            now,
            clock,
            logo,
            w,
            h,
        ) == out,
        has_dressing(s, st) && clock is Some && logo is Some ==> dressed(
            out,
            s,
            st,
            net,
            msg,
            tag_w,
            tw,
            now,
            clock,
            logo,
            w,
            h,
        ).len() > out.len(),
{
    the_dressing_is_what_is_allowed(out, s, st, net, msg, tag_w, tw, now, clock, logo, w, h);
    let no_logos = SettingsView { logos: false, ..s };
    the_dressing_is_what_is_allowed(out, no_logos, st, net, msg, tag_w, tw, now, clock, logo, w, h);
}

} // verus!
