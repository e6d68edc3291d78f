//! Setting the device up: the access point's name and password, the screen that
//! shows them, and the list of networks in the log.

use vstd::prelude::*;
use vstd::string::StringExecFns;
use vstd::utf8::{encode_utf8, is_ascii_chars, is_ascii_chars_encode_utf8};

use crate::framebuffer::{
    screen_part, FrameBuffer, HEIGHT, SCREEN_HEIGHT, SCREEN_WIDTH, WIDTH,
};
use crate::gdeq0426t82::{
    draw_acts, fill_acts, init_acts, refresh_acts, sleep_acts, Bank, Epd, Refresh,
};
use crate::geometry::{law_holds, Point, Rectangle, Size};
use crate::qr::{
    law_quiet_zone, modules_of, placeable, scale_for, side_for, span, FitError, QrImage, SURE_BYTES,
    WIDEST_CODE,
};
use crate::script::{Readiness, Script};
use crate::shapes::{draw_text, strip_bit, text_ink, text_strip};
use crate::text::{
    decimal, decimal_text, law_decimal_reads_back, pad_left, pad_right, signed_decimal, signed_text,
    spaces,
};

verus! {

pub const SSID: &'static str = "magic-esp-wifi";

pub const WIFI_PW: &'static str = "magic-esp-wifi-pw";

/// Where clients are sent.
pub const CAPTIVE_PORTAL_URI: &'static str = "http://192.168.71.1/portal";

/// How many clients the access point takes.
pub const MAX_CONNECTIONS: u16 = 2;

/// How long to wait after a scan that failed.
pub const SCAN_RETRY_SECS: u64 = 10;

/// What a phone scans to join a network.
pub open spec fn join_text(ssid: Seq<char>, password: Seq<char>) -> Seq<char> {
    "WIFI:T:WPA;S:"@ + ssid + ";P:"@ + password + ";;"@
}

/// The text of the code that joins a network.
pub fn join_code(ssid: &str, password: &str) -> (s: String)
    ensures
        s@ == join_text(ssid@, password@),
{
    let mut s: String = String::from_str("WIFI:T:WPA;S:");
    s.append(ssid);
    s.append(";P:");
    s.append(password);
    s.append(";;");
    s
}

/// The whole screen.
pub open spec fn screen() -> Rectangle {
    Rectangle {
        top_left: Point { x: 0, y: 0 },
        size: Size { width: SCREEN_WIDTH as u32, height: SCREEN_HEIGHT as u32 },
    }
}

/// A code of any size fits on the screen.
pub proof fn lemma_fits_screen(width: u32)
    requires
        21 <= width <= WIDEST_CODE,
    ensures
        placeable(width, screen()),
        side_for(width, screen()) <= SCREEN_WIDTH,
{
    let d = span(width);
    let k = 480int / d;
    assert(1 <= k <= 480 && d * k <= 480) by (nonlinear_arith)
        requires
            k == 480int / d,
            29 <= d <= 73,
    ;
    assert(scale_for(width, screen()) == k);
    assert(side_for(width, screen()) == d * k);
    assert(d * k > 0) by (nonlinear_arith)
        requires
            d > 0,
            k > 0,
    ;
}

/// The text of this device's code is short.
proof fn lemma_join_text_short()
    ensures
        encode_utf8(join_text(SSID@, WIFI_PW@)).len() <= SURE_BYTES,
{
    reveal_strlit("WIFI:T:WPA;S:");
    reveal_strlit("magic-esp-wifi");
    reveal_strlit(";P:");
    reveal_strlit("magic-esp-wifi-pw");
    reveal_strlit(";;");
    let text = join_text(SSID@, WIFI_PW@);
    assert(is_ascii_chars(text));
    is_ascii_chars_encode_utf8(text);
}

/// What the setup screen looks like over `before`: its caption, and over that the
/// code that joins the access point.
pub open spec fn setup_screen(before: Set<(int, int)>, code: QrImage) -> Set<(int, int)> {
    before.union(text_ink("Scan to Setup"@, Point { x: 240, y: 100 }, 50)).difference(
        screen_part(code.footprint()),
    ).union(code.dark())
}

/// Draws the setup screen around a code.
pub fn draw_setup(code: &QrImage, framebuffer: &mut FrameBuffer)
    requires
        code.drawable(),
    ensures
        final(framebuffer).ink() == setup_screen(old(framebuffer).ink(), *code),
{
    proof {
        reveal_strlit("Scan to Setup");
    }
    draw_text("Scan to Setup", Point { x: SCREEN_WIDTH as i32 / 2, y: 100 }, 50, framebuffer);
    code.draw(framebuffer);
}

/// Draws the setup screen with the code of this device's access point.
pub fn draw_ui(framebuffer: &mut FrameBuffer) -> (r: Result<(), FitError>)
    ensures
        match modules_of(encode_utf8(join_text(SSID@, WIFI_PW@))) {
            Ok((width, modules)) => r is Ok && exists|code: QrImage|
                #[trigger] code.is_placed(modules, width, screen()) && final(framebuffer).ink()
                    == setup_screen(old(framebuffer).ink(), code),
            Err(e) => r matches Err(error) && error.cause == e && error.bytes == encode_utf8(
                join_text(SSID@, WIFI_PW@),
            ).len() && final(framebuffer).ink() == old(framebuffer).ink(),
        },
{
    let text: String = join_code(SSID, WIFI_PW);
    let area = Rectangle {
        top_left: Point { x: 0, y: 0 },
        size: Size { width: SCREEN_WIDTH as u32, height: SCREEN_HEIGHT as u32 },
    };
    proof {
        lemma_join_text_short();
    }
    let code: QrImage = match QrImage::try_fit(text.as_str(), area) {
        Some(Ok(code)) => code,
        Some(Err(e)) => {
            return Err(e);
        },
        None => {
            proof {
                let width = modules_of(encode_utf8(text@))->Ok_0.0;
                lemma_fits_screen(width);
            }
            return Ok(());
        },
    };
    proof {
        let (width, modules) = modules_of(encode_utf8(text@))->Ok_0;
        assert(code.is_placed(modules, width, screen()));
        lemma_fits_screen(width);
    }
    draw_setup(&code, framebuffer);
    Ok(())
}

/// A call of the panel's driver while the setup screen is put up.
#[derive(Clone, Copy, Debug, PartialEq, Eq, Structural)]
pub enum Show {
    Init,
    Fill(u8),
    Refresh(Refresh),
    /// Writes the setup screen into both banks.
    Flush,
    Sleep,
}

/// The calls that put the setup screen up: a blank panel first, then the screen,
/// then the panel sleeps.
pub open spec fn show_sequence() -> Seq<Show> {
    seq![
        Show::Init,
        Show::Fill(0xFF),
        Show::Refresh(Refresh::Full),
        Show::Flush,
        Show::Refresh(Refresh::Full),
        Show::Sleep,
    ]
}

pub fn show_calls() -> (calls: Vec<Show>)
    ensures
        calls@ == show_sequence(),
{
    let calls: Vec<Show> = vec![
        Show::Init,
        Show::Fill(0xFF),
        Show::Refresh(Refresh::Full),
        Show::Flush,
        Show::Refresh(Refresh::Full),
        Show::Sleep,
    ];
    assert(calls@ =~= show_sequence());
    calls
}

/// The bus operations of such a call.
pub fn show_script<'a>(call: Show, framebuffer: &'a FrameBuffer, epd: &mut Epd) -> (s: Script<'a>)
    ensures
        s.holds(
            match call {
                Show::Init => init_acts(),
                Show::Fill(pattern) => fill_acts(pattern),
                Show::Refresh(mode) => refresh_acts(old(epd).readiness(), mode),
                Show::Flush => draw_acts(
                    framebuffer.bytes(),
                    0,
                    0,
                    WIDTH as int,
                    HEIGHT as int,
                    Bank::Both,
                ),
                Show::Sleep => sleep_acts(),
            },
        ),
        final(epd).readiness() == (if call == Show::Init {
            Readiness { primed: false, differential: false }
        } else {
            old(epd).readiness()
        }),
{
    match call {
        Show::Init => epd.init(),
        Show::Fill(pattern) => epd.fill(pattern),
        Show::Refresh(mode) => epd.refresh(mode),
        Show::Flush => framebuffer.flush(epd, Bank::Both),
        Show::Sleep => epd.sleep(),
    }
}

/// Signal strength as bars.
pub open spec fn bars(dbm: int) -> Seq<char> {
    if dbm >= -50 {
        "****"@
    } else if dbm >= -60 {
        "***."@
    } else if dbm >= -70 {
        "**.."@
    } else if dbm >= -80 {
        "*..."@
    } else {
        "...."@
    }
}

pub fn signal_bars(signal_strength: i8) -> (s: &'static str)
    ensures
        s@ == bars(signal_strength as int),
{
    if signal_strength >= -50 {
        "****"
    } else if signal_strength >= -60 {
        "***."
    } else if signal_strength >= -70 {
        "**.."
    } else if signal_strength >= -80 {
        "*..."
    } else {
        "...."
    }
}

/// A network that a scan found.
#[derive(Debug)]
pub struct Network {
    pub ssid: String,
    pub channel: u8,
    pub signal_strength: i8,
    pub protocols: Vec<String>,
    /// How clients prove themselves; `None` if the network is open.
    pub auth: Option<String>,
}

/// Texts with commas between them.
pub open spec fn joined(parts: Seq<String>) -> Seq<char>
    decreases parts.len(),
{
    if parts.len() == 0 {
        Seq::empty()
    } else if parts.len() == 1 {
        parts[0]@
    } else {
        joined(parts.drop_last()) + ","@ + parts.last()@
    }
}

fn join(parts: &Vec<String>) -> (s: String)
    ensures
        s@ == joined(parts@),
{
    let mut s: String = String::new();
    let mut i: usize = 0;
    assert(parts@.take(0) =~= Seq::empty());
    assert(s@ =~= joined(parts@.take(0)));
    while i < parts.len()
        invariant
            i <= parts@.len(),
            s@ == joined(parts@.take(i as int)),
        decreases parts@.len() - i,
    {
        let ghost before = s@;
        if i > 0 {
            s.append(",");
        }
        s.append(parts[i].as_str());
        proof {
            let part = parts@.take(i + 1);
            assert(part.drop_last() =~= parts@.take(i as int));
            assert(part.last() == parts@[i as int]);
            if i == 0 {
                assert(s@ =~= part[0]@);
            }
        }
        i += 1;
    }
    assert(parts@.take(i as int) =~= parts@);
    s
}

/// How a network is listed: its name, its channel, its signal and how it is
/// secured.
pub open spec fn network_line(network: Network) -> Seq<char> {
    let name = network.ssid@;
    let channel = decimal(network.channel as nat);
    name + spaces(30 - name.len()) + " chan"@ + (spaces(2 - channel.len()) + channel) + " "@ + bars(
        network.signal_strength as int,
    ) + " ("@ + signed_decimal(network.signal_strength as int) + "dbm) "@ + joined(
        network.protocols@,
    ) + " "@ + match network.auth {
        Some(auth) => auth@,
        None => "open"@,
    }
}

pub fn list_network(network: &Network) -> (s: String)
    ensures
        s@ == network_line(*network),
{
    let mut s: String = pad_right(network.ssid.as_str(), 30);
    s.append(" chan");
    let number: String = decimal_text(network.channel as u64);
    let channel: String = pad_left(number.as_str(), 2);
    s.append(channel.as_str());
    s.append(" ");
    s.append(signal_bars(network.signal_strength));
    s.append(" (");
    let dbm: String = signed_text(network.signal_strength as i64);
    s.append(dbm.as_str());
    s.append("dbm) ");
    let protocols: String = join(&network.protocols);
    s.append(protocols.as_str());
    s.append(" ");
    match &network.auth {
        Some(auth) => s.append(auth.as_str()),
        None => s.append("open"),
    }
    s
}

/// What to do after a scan.
#[derive(Debug)]
pub enum Scanned {
    /// Log these lines.
    List(Vec<String>),
    /// Wait this many seconds and scan again.
    RetryAfter(u64),
}

/// Decides what follows a scan. What was found is kept, whole and in order, in
/// place of what was kept before; a scan that failed leaves that alone.
pub fn after_scan(kept: &mut Vec<Network>, found: Option<Vec<Network>>) -> (r: Scanned)
    ensures
        match found {
            Some(networks) => {
                &&& *final(kept) == networks
                &&& r matches Scanned::List(lines) && lines@.len() == networks@.len() && forall|
                    i: int,
                |
                    0 <= i < lines@.len() ==> (#[trigger] lines@[i])@ == network_line(networks@[i])
            },
            None => *final(kept) == *old(kept) && r == Scanned::RetryAfter(SCAN_RETRY_SECS),
        },
{
    match found {
        Some(networks) => {
            let mut lines: Vec<String> = Vec::new();
            let mut i: usize = 0;
            while i < networks.len()
                invariant
                    i <= networks@.len(),
                    lines@.len() == i,
                    forall|k: int|
                        0 <= k < i ==> (#[trigger] lines@[k])@ == network_line(networks@[k]),
                decreases networks@.len() - i,
            {
                lines.push(list_network(&networks[i]));
                i += 1;
            }
            *kept = networks;
            Scanned::List(lines)
        },
        None => Scanned::RetryAfter(SCAN_RETRY_SECS),
    }
}

/// How the access point presents itself.
#[derive(Clone, Copy, Debug)]
pub struct ApSettings {
    pub ssid: &'static str,
    pub password: &'static str,
    pub max_connections: u16,
}

/// The settings that the radio is started with: an access point secured by WPA2
/// with a personal password, beside a client with default settings.
pub fn start_wifi() -> (s: ApSettings)
    ensures
        s.ssid@ == SSID@,
        s.password@ == WIFI_PW@,
        s.max_connections == MAX_CONNECTIONS,
{
    ApSettings { ssid: SSID, password: WIFI_PW, max_connections: MAX_CONNECTIONS }
}

/// A code to join a network is a fixed text with the name and the password in it,
/// as they are.
pub proof fn law_join_text(ssid: Seq<char>, password: Seq<char>)
    ensures
        ({
            let text = join_text(ssid, password);
            let (n, k) = (ssid.len() as int, password.len() as int);
            &&& text.len() == n + k + 18
            &&& text.take(13) == "WIFI:T:WPA;S:"@
            &&& text.subrange(13, 13 + n) == ssid
            &&& text.subrange(13 + n, 16 + n) == ";P:"@
            &&& text.subrange(16 + n, 16 + n + k) == password
            &&& text.skip(16 + n + k) == ";;"@
        }),
{
    reveal_strlit("WIFI:T:WPA;S:");
    reveal_strlit(";P:");
    reveal_strlit(";;");
    let text = join_text(ssid, password);
    let (n, k) = (ssid.len() as int, password.len() as int);
    assert(text.take(13) =~= "WIFI:T:WPA;S:"@);
    assert(text.subrange(13, 13 + n) =~= ssid);
    assert(text.subrange(13 + n, 16 + n) =~= ";P:"@);
    assert(text.subrange(16 + n, 16 + n + k) =~= password);
    assert(text.skip(16 + n + k) =~= ";;"@);
}

/// There are four bars, and each ten dBm from -80 up fill one more, from the left.
pub proof fn law_bars(dbm: int, i: int)
    requires
        0 <= i < 4,
    ensures
        bars(dbm).len() == 4,
        bars(dbm)[i] == (if dbm >= -80 + 10 * i {
            '*'
        } else {
            '.'
        }),
{
    reveal_strlit("****");
    reveal_strlit("***.");
    reveal_strlit("**..");
    reveal_strlit("*...");
    reveal_strlit("....");
}

/// Texts with commas between them: the first as it is, and a comma before each
/// further one.
pub proof fn law_joined(parts: Seq<String>)
    ensures
        joined(parts) == Seq::new(
            parts.len(),
            |i: int|
                (if i == 0 {
                    ""@
                } else {
                    ","@
                }) + parts[i]@,
        ).flatten_alt(),
    decreases parts.len(),
{
    let piece = |i: int|
        (if i == 0 {
            ""@
        } else {
            ","@
        }) + parts[i]@;
    let pieces = Seq::new(parts.len(), piece);
    if parts.len() > 0 {
        let front = parts.drop_last();
        law_joined(front);
        let others = Seq::new(
            front.len(),
            |i: int|
                (if i == 0 {
                    ""@
                } else {
                    ","@
                }) + front[i]@,
        );
        assert(pieces.drop_last() =~= others);
        assert(pieces.last() == piece(parts.len() - 1));
        if parts.len() == 1 {
            reveal_strlit("");
            assert(others.flatten_alt() =~= Seq::empty());
            assert(joined(parts) =~= pieces.flatten_alt());
        } else {
            assert(joined(parts) =~= pieces.flatten_alt());
        }
    }
}

/// How a line of the list is laid out: the name in a column of thirty, blank to
/// its right and wider only if the name is; the channel in a column of two, blank
/// to its left; the bars; the strength; the protocols; and how the network is
/// secured.
pub proof fn law_network_line(network: Network)
    ensures
        ({
            let line = network_line(network);
            let name = network.ssid@;
            let wide = if name.len() < 30 {
                30
            } else {
                name.len() as int
            };
            let number = decimal(network.channel as nat);
            let column = if number.len() < 2 {
                " "@ + number
            } else {
                number
            };
            &&& line.take(name.len() as int) == name
            &&& forall|i: int| name.len() <= i < wide ==> #[trigger] line[i] == ' '
            &&& line.skip(wide) == " chan"@ + column + " "@ + bars(network.signal_strength as int)
                + " ("@ + signed_decimal(network.signal_strength as int) + "dbm) "@ + joined(
                network.protocols@,
            ) + " "@ + (if network.auth is Some {
                network.auth->0@
            } else {
                "open"@
            })
        }),
{
    reveal_strlit(" ");
    let line = network_line(network);
    let name = network.ssid@;
    let number = decimal(network.channel as nat);
    let wide = if name.len() < 30 {
        30
    } else {
        name.len() as int
    };
    law_decimal_reads_back(network.channel as nat);
    if number.len() < 2 {
        assert(spaces(2 - number.len()) + number =~= " "@ + number);
    } else {
        assert(spaces(2 - number.len()) + number =~= number);
    }
    assert(line.take(name.len() as int) =~= name);
    let column = spaces(2 - number.len()) + number;
    assert(line.skip(wide) =~= " chan"@ + column + " "@ + bars(network.signal_strength as int)
        + " ("@ + signed_decimal(network.signal_strength as int) + "dbm) "@ + joined(
        network.protocols@,
    ) + " "@ + (if network.auth is Some {
        network.auth->0@
    } else {
        "open"@
    }));
}

/// The setup screen, pixel by pixel: black in dark modules, blank in what else the
/// code covers, and elsewhere as it was, with the caption over it.
pub proof fn law_setup_screen(before: Set<(int, int)>, code: QrImage, x: int, y: int)
    requires
        code.drawable(),
        0 <= x < 480,
        0 <= y < 800,
    ensures
        ({
            let after = setup_screen(before, code);
            let side = (code.modules_wide() + 8) * code.pixels_per_module();
            let covered = 0 <= x - code.corner().x < side && 0 <= y - code.corner().y < side;
            let strip = text_strip("Scan to Setup"@, 240, 32, 50);
            let caption = 68 <= y < 132 && strip_bit(strip, x, y - 68);
            &&& covered ==> (after.contains((x, y)) <==> code.is_dark(x, y))
            &&& !covered ==> (after.contains((x, y)) <==> before.contains((x, y)) || caption)
        }),
{
    law_holds(code.footprint(), x, y);
    law_quiet_zone(code, before, x, y);
    if code.is_dark(x, y) {
        let zone = 4 * code.pixels_per_module();
        assert(zone >= 0);
    }
}

} // verus!
