//! Power commands: Wake-on-LAN packets and targets, MAC address parsing,
//! the `ipmitool` and `ssh` command lines, and the text kept of a command's
//! output.

use vstd::prelude::*;
use vstd::string::*;
use crate::text::{
    contains_seq, contains_str, escape_single_quotes, lossy_utf8, quote_escaped, replace_first,
    replaced_first, trim_str, trimmed, utf8_lossy,
};
use crate::types::ServerConfig;

verus! {

/// The parts of `s` between colons, as `str::split(':')` yields them.
pub open spec fn split_colon(s: Seq<char>) -> Seq<Seq<char>>
    decreases s.len(),
{
    if s.len() == 0 {
        seq![Seq::<char>::empty()]
    } else {
        let r = split_colon(s.drop_last());
        if s.last() == ':' {
            r.push(Seq::<char>::empty())
        } else {
            r.update(r.len() - 1, r.last().push(s.last()))
        }
    }
}

proof fn lemma_split_nonempty(s: Seq<char>)
    ensures
        split_colon(s).len() >= 1,
    decreases s.len(),
{
    if s.len() > 0 {
        lemma_split_nonempty(s.drop_last());
    }
}

/// The value of a hexadecimal digit.
pub open spec fn hex_digit(c: char) -> Option<int> {
    if '0' <= c && c <= '9' {
        Some(c as int - '0' as int)
    } else if 'a' <= c && c <= 'f' {
        Some(c as int - 'a' as int + 10)
    } else if 'A' <= c && c <= 'F' {
        Some(c as int - 'A' as int + 10)
    } else {
        None
    }
}

/// Every character is a hexadecimal digit.
pub open spec fn all_hex(d: Seq<char>) -> bool {
    forall|i: int| 0 <= i < d.len() ==> #[trigger] hex_digit(d[i]) is Some
}

/// The value of a sequence of hexadecimal digits.
pub open spec fn hex_value(d: Seq<char>) -> int
    decreases d.len(),
{
    if d.len() == 0 {
        0
    } else {
        hex_value(d.drop_last()) * 16 + hex_digit(d.last())->0
    }
}

/// The byte that `u8::from_str_radix(part, 16)` reads: an optional `+`, then
/// at least one hexadecimal digit, of value at most 255.
pub open spec fn hex_byte(part: Seq<char>) -> Option<u8> {
    let d = if part.len() > 0 && part[0] == '+' { part.drop_first() } else { part };
    if d.len() == 0 || !all_hex(d) || hex_value(d) > 255 {
        None
    } else {
        Some(hex_value(d) as u8)
    }
}

/// The six bytes of a MAC address written as six colon-separated
/// hexadecimal bytes.
pub open spec fn mac_bytes(mac: Seq<char>) -> Option<Seq<u8>> {
    let parts = split_colon(mac);
    if parts.len() == 6 && forall|i: int| 0 <= i < 6 ==> #[trigger] hex_byte(parts[i]) is Some {
        Some(Seq::new(6, |i: int| hex_byte(parts[i])->0))
    } else {
        None
    }
}

/// The first part of a MAC address that is not a hexadecimal byte.
pub open spec fn first_bad_part(parts: Seq<Seq<char>>) -> int {
    choose|i: int| 0 <= i < parts.len() && hex_byte(parts[i]) is None
        && forall|j: int| 0 <= j < i ==> #[trigger] hex_byte(parts[j]) is Some
}

/// The error for a malformed MAC address: a wrong number of parts is
/// reported with the whole address, a bad part with that part.
pub open spec fn mac_error(mac: Seq<char>) -> Seq<char> {
    let parts = split_colon(mac);
    if parts.len() != 6 {
        "Invalid MAC address: "@ + mac
    } else {
        "Invalid MAC address byte: "@ + parts[first_bad_part(parts)]
    }
}

proof fn lemma_hex_value_grows(d: Seq<char>, k: int)
    requires
        all_hex(d),
        0 <= k <= d.len(),
    ensures
        hex_value(d.take(k)) <= hex_value(d),
        0 <= hex_value(d.take(k)),
    decreases d.len() - k,
{
    if k < d.len() {
        lemma_hex_value_grows(d, k + 1);
        assert(d.take(k + 1).drop_last() =~= d.take(k));
        assert(hex_digit(d[k]) is Some);
        lemma_hex_value_nonneg(d.take(k));
    } else {
        assert(d.take(k) =~= d);
        lemma_hex_value_nonneg(d);
    }
}

proof fn lemma_hex_value_nonneg(d: Seq<char>)
    requires
        all_hex(d),
    ensures
        0 <= hex_value(d),
    decreases d.len(),
{
    if d.len() > 0 {
        assert(hex_digit(d[d.len() - 1]) is Some);
        lemma_hex_value_nonneg(d.drop_last());
    }
}

fn hex_digit_exec(c: char) -> (res: Option<u32>)
    ensures
        match hex_digit(c) {
            Some(v) => res == Some(v as u32),
            None => res is None,
        },
{
    if '0' <= c && c <= '9' {
        Some(c as u32 - '0' as u32)
    } else if 'a' <= c && c <= 'f' {
        Some(c as u32 - 'a' as u32 + 10)
    } else if 'A' <= c && c <= 'F' {
        Some(c as u32 - 'A' as u32 + 10)
    } else {
        None
    }
}

/// The byte `u8::from_str_radix(part, 16)` reads, if any.
fn parse_hex_byte(part: &str) -> (res: Option<u8>)
    ensures
        res == hex_byte(part@),
{
    let n = part.unicode_len();
    let start: usize = if n > 0 && part.get_char(0) == '+' { 1 } else { 0 };
    let ghost d = if part@.len() > 0 && part@[0] == '+' { part@.drop_first() } else { part@ };
    assert(d =~= part@.subrange(start as int, n as int));
    if start == n {
        return None;
    }
    let mut v: u32 = 0;
    let mut i: usize = start;
    while i < n
        invariant
            n == part@.len(),
            start <= i <= n,
            start < n,
            d == part@.subrange(start as int, n as int),
            d == (if part@.len() > 0 && part@[0] == '+' { part@.drop_first() } else { part@ }),
            all_hex(d.take(i - start)),
            v as int == hex_value(d.take(i - start)),
            v <= 255,
        decreases n - i,
    {
        let k = i - start;
        assert(d.take(k + 1).drop_last() =~= d.take(k as int));
        assert(d.take(k + 1).last() == d[k as int]);
        assert(d[k as int] == part@[i as int]);
        match hex_digit_exec(part.get_char(i)) {
            None => {
                assert(hex_digit(d[k as int]) is None);
                assert(!all_hex(d));
                return None;
            },
            Some(x) => {
                assert(hex_value(d.take(k + 1)) == hex_value(d.take(k as int)) * 16 + hex_digit(d[k as int])->0);
                v = v * 16 + x;
                assert(all_hex(d.take(k + 1))) by {
                    assert forall|j: int| 0 <= j < k + 1 implies #[trigger] hex_digit(d.take(k + 1)[j]) is Some by {
                        if j < k {
                            assert(d.take(k + 1)[j] == d.take(k as int)[j]);
                        }
                    }
                }
                if v > 255 {
                    proof {
                        if all_hex(d) {
                            lemma_hex_value_grows(d, k + 1);
                        }
                    }
                    return None;
                }
            },
        }
        i += 1;
    }
    assert(d.take(n - start) =~= d);
    Some(v as u8)
}

proof fn lemma_split_step(s: Seq<char>, i: int)
    requires
        0 <= i < s.len(),
    ensures
        split_colon(s.take(i + 1)) == if s[i] == ':' {
            split_colon(s.take(i)).push(Seq::<char>::empty())
        } else {
            let r = split_colon(s.take(i));
            r.update(r.len() - 1, r.last().push(s[i]))
        },
{
    assert(s.take(i + 1).drop_last() =~= s.take(i));
    assert(s.take(i + 1).last() == s[i]);
}

/// The parts of `s` between colons.
fn split_on_colons(s: &str) -> (parts: Vec<String>)
    ensures
        crate::config::strings_view(parts@) == split_colon(s@),
{
    let n = s.unicode_len();
    let mut parts: Vec<String> = Vec::new();
    let mut start: usize = 0;
    let mut i: usize = 0;
    proof {
        assert(s@.take(0) =~= Seq::<char>::empty());
        assert(s@.subrange(0, 0) =~= Seq::<char>::empty());
        assert(crate::config::strings_view(parts@).push(s@.subrange(0, 0)) =~= split_colon(s@.take(0)));
    }
    while i < n
        invariant
            n == s@.len(),
            start <= i <= n,
            crate::config::strings_view(parts@).push(s@.subrange(start as int, i as int)) == split_colon(s@.take(i as int)),
        decreases n - i,
    {
        let ghost before = crate::config::strings_view(parts@);
        proof {
            lemma_split_step(s@, i as int);
        }
        if s.get_char(i) == ':' {
            let ghost old_start = start;
            parts.push(String::from_str(s.substring_char(start, i)));
            start = i + 1;
            assert(s@.subrange(start as int, i + 1) =~= Seq::<char>::empty());
            assert(crate::config::strings_view(parts@) =~= before.push(s@.subrange(old_start as int, i as int)));
        } else {
            assert(s@.subrange(start as int, i + 1) =~= s@.subrange(start as int, i as int).push(s@[i as int]));
        }
        proof {
            assert(crate::config::strings_view(parts@).push(s@.subrange(start as int, i + 1)) =~= split_colon(s@.take(i + 1)));
        }
        i += 1;
    }
    parts.push(String::from_str(s.substring_char(start, n)));
    proof {
        assert(s@.take(n as int) =~= s@);
        assert(crate::config::strings_view(parts@) =~= split_colon(s@));
    }
    parts
}

fn prefixed(prefix: &str, tail: &str) -> (res: String)
    ensures
        res@ == prefix@ + tail@,
{
    let mut res = String::from_str(prefix);
    res.append(tail);
    res
}

/// The six bytes of a MAC address like `aa:bb:cc:dd:ee:ff`.
pub fn parse_mac(mac: &str) -> (res: Result<[u8; 6], String>)
    ensures
        mac_bytes(mac@) matches Some(b) ==> (res matches Ok(a) && a@ == b),
        mac_bytes(mac@) is None ==> (res matches Err(e) && e@ == mac_error(mac@)),
{
    let parts = split_on_colons(mac);
    let ghost ps = split_colon(mac@);
    if parts.len() != 6 {
        return Err(prefixed("Invalid MAC address: ", mac));
    }
    let mut bytes: Vec<u8> = Vec::new();
    let mut i: usize = 0;
    while i < 6
        invariant
            parts@.len() == 6,
            ps == split_colon(mac@),
            ps == crate::config::strings_view(parts@),
            i <= 6,
            bytes@.len() == i,
            forall|j: int| 0 <= j < i ==> #[trigger] hex_byte(ps[j]) == Some(bytes@[j]),
        decreases 6 - i,
    {
        assert(ps[i as int] == parts@[i as int]@);
        match parse_hex_byte(parts[i].as_str()) {
            Some(b) => {
                bytes.push(b);
            },
            None => {
                proof {
                    assert(hex_byte(ps[i as int]) is None);
                    assert(mac_bytes(mac@) is None);
                    let f = first_bad_part(ps);
                    assert(hex_byte(ps[i as int]) is None && forall|j: int| 0 <= j < i ==> #[trigger] hex_byte(ps[j]) is Some);
                    assert(f == i as int) by {
                        if f < i {
                            assert(hex_byte(ps[f]) is Some);
                        } else if i < f {
                        }
                    }
                }
                return Err(prefixed("Invalid MAC address byte: ", parts[i].as_str()));
            },
        }
        i += 1;
    }
    let arr: [u8; 6] = [bytes[0], bytes[1], bytes[2], bytes[3], bytes[4], bytes[5]];
    proof {
        assert forall|j: int| 0 <= j < 6 implies #[trigger] hex_byte(ps[j]) is Some by {
            assert(hex_byte(ps[j]) == Some(bytes@[j]));
        }
        assert(arr@ =~= Seq::new(6, |j: int| hex_byte(ps[j])->0));
    }
    Ok(arr)
}

/// `s` repeated `n` times.
pub open spec fn repeated(s: Seq<u8>, n: nat) -> Seq<u8>
    decreases n,
{
    if n == 0 {
        Seq::empty()
    } else {
        repeated(s, (n - 1) as nat) + s
    }
}

/// The Wake-on-LAN magic packet: six `0xFF` bytes, then the MAC address
/// sixteen times.
pub fn magic_packet(mac: &[u8; 6]) -> (packet: Vec<u8>)
    ensures
        packet@ == seq![0xFFu8, 0xFFu8, 0xFFu8, 0xFFu8, 0xFFu8, 0xFFu8] + repeated(mac@, 16),
{
    let mut packet: Vec<u8> = Vec::new();
    let mut i: usize = 0;
    while i < 6
        invariant
            i <= 6,
            packet@ == Seq::new(i as nat, |j: int| 0xFFu8),
        decreases 6 - i,
    {
        packet.push(0xFF);
        assert(packet@ =~= Seq::new((i + 1) as nat, |j: int| 0xFFu8));
        i += 1;
    }
    assert(packet@ =~= seq![0xFFu8, 0xFFu8, 0xFFu8, 0xFFu8, 0xFFu8, 0xFFu8] + repeated(mac@, 0));
    let mut r: usize = 0;
    while r < 16
        invariant
            r <= 16,
            packet@ == seq![0xFFu8, 0xFFu8, 0xFFu8, 0xFFu8, 0xFFu8, 0xFFu8] + repeated(mac@, r as nat),
        decreases 16 - r,
    {
        let ghost before = packet@;
        let mut k: usize = 0;
        while k < 6
            invariant
                k <= 6,
                packet@ == before + mac@.take(k as int),
            decreases 6 - k,
        {
            packet.push(mac[k]);
            assert(packet@ =~= before + mac@.take(k + 1));
            k += 1;
        }
        assert(mac@.take(6) =~= mac@);
        assert(repeated(mac@, (r + 1) as nat) == repeated(mac@, r as nat) + mac@);
        assert(packet@ =~= seq![0xFFu8, 0xFFu8, 0xFFu8, 0xFFu8, 0xFFu8, 0xFFu8] + repeated(mac@, (r + 1) as nat));
        r += 1;
    }
    packet
}

/// The limited broadcast address on the Wake-on-LAN port, always targeted.
pub open spec fn limited_broadcast() -> Seq<char> {
    "255.255.255.255:9"@
}

/// A configured directed broadcast address, with port 9 added unless it has
/// a port.
pub open spec fn directed_target(addr: Seq<char>) -> Seq<char> {
    if contains_seq(addr, ":"@) {
        addr
    } else {
        addr + ":9"@
    }
}

/// The addresses a magic packet is sent to: the limited broadcast, and the
/// directed broadcast when one is configured and differs from it.
pub fn wol_targets(broadcast: &Option<String>) -> (targets: Vec<String>)
    ensures
        crate::config::strings_view(targets@) == seq![limited_broadcast()] + match broadcast {
            Some(a) => if directed_target(a@) != limited_broadcast() {
                seq![directed_target(a@)]
            } else {
                Seq::empty()
            },
            None => Seq::empty(),
        },
{
    let mut targets: Vec<String> = Vec::new();
    targets.push(String::from_str("255.255.255.255:9"));
    match broadcast {
        Some(addr) => {
            let directed = if contains_str(addr.as_str(), ":") {
                addr.clone()
            } else {
                prefixed(addr.as_str(), ":9")
            };
            if directed != targets[0] {
                targets.push(directed);
                assert(crate::config::strings_view(targets@) =~= seq![limited_broadcast()] + seq![directed_target(addr@)]);
            } else {
                assert(crate::config::strings_view(targets@) =~= seq![limited_broadcast()] + Seq::empty());
            }
        },
        None => {
            assert(crate::config::strings_view(targets@) =~= seq![limited_broadcast()] + Seq::empty());
        },
    }
    targets
}

/// The failure of a Wake-on-LAN send, given the error of each target in
/// order: the send fails only when its single target failed.
pub fn wol_failure(errors: &Vec<Option<String>>) -> (res: Option<String>)
    ensures
        res == if errors@.len() == 1 { errors@[0] } else { None },
{
    let mut last: Option<String> = None;
    let n = errors.len();
    let mut i: usize = 0;
    while i < n
        invariant
            n == errors@.len(),
            i <= n,
            i > 0 ==> last == errors@[i - 1],
        decreases n - i,
    {
        last = match &errors[i] {
            Some(e) => Some(e.clone()),
            None => None,
        };
        i += 1;
    }
    if n == 1 {
        last
    } else {
        None
    }
}

/// The text of an optional setting, or a default.
pub open spec fn or_default(o: Option<String>, d: Seq<char>) -> Seq<char> {
    match o {
        Some(s) => s@,
        None => d,
    }
}

fn or_default_exec(o: &Option<String>, d: &str) -> (res: String)
    ensures
        res@ == or_default(*o, d@),
{
    match o {
        Some(s) => s.clone(),
        None => String::from_str(d),
    }
}

/// The arguments of `ipmitool` for a chassis power `action` on the server's
/// BMC; the user defaults to `admin`, address and password to empty.
pub fn ipmi_args(server: &ServerConfig, action: &str) -> (args: Vec<String>)
    ensures
        crate::config::strings_view(args@) == seq![
            "-I"@, "lanplus"@, "-H"@, or_default(server.ipmi_ip, ""@), "-U"@, or_default(server.ipmi_user, "admin"@),
            "-P"@, or_default(server.ipmi_password, ""@), "chassis"@, "power"@, action@,
        ],
{
    let mut args: Vec<String> = Vec::new();
    args.push(String::from_str("-I"));
    args.push(String::from_str("lanplus"));
    args.push(String::from_str("-H"));
    args.push(or_default_exec(&server.ipmi_ip, ""));
    args.push(String::from_str("-U"));
    args.push(or_default_exec(&server.ipmi_user, "admin"));
    args.push(String::from_str("-P"));
    args.push(or_default_exec(&server.ipmi_password, ""));
    args.push(String::from_str("chassis"));
    args.push(String::from_str("power"));
    args.push(String::from_str(action));
    assert(crate::config::strings_view(args@) =~= seq![
        "-I"@, "lanplus"@, "-H"@, or_default(server.ipmi_ip, ""@), "-U"@, or_default(server.ipmi_user, "admin"@),
        "-P"@, or_default(server.ipmi_password, ""@), "chassis"@, "power"@, action@,
    ]);
    args
}

/// Whether the output of `ipmitool chassis power status` reports the
/// chassis as on.
pub fn ipmi_reports_power_on(stdout: &[u8]) -> (res: bool)
    ensures
        res == contains_seq(lossy_utf8(stdout@), "Chassis Power is on"@),
{
    let text = utf8_lossy(stdout);
    contains_str(text.as_str(), "Chassis Power is on")
}

/// The output kept of a command: its trimmed standard output and standard
/// error, joined by a newline when both are non-empty.
pub open spec fn combined(out: Seq<char>, err: Seq<char>) -> Seq<char> {
    if out.len() > 0 && err.len() > 0 {
        out + "\n"@ + err
    } else if out.len() > 0 {
        out
    } else {
        err
    }
}

pub fn combined_output(stdout: &[u8], stderr: &[u8]) -> (res: String)
    ensures
        res@ == combined(trimmed(lossy_utf8(stdout@)), trimmed(lossy_utf8(stderr@))),
{
    let out_text = utf8_lossy(stdout);
    let err_text = utf8_lossy(stderr);
    let out = trim_str(out_text.as_str());
    let err = trim_str(err_text.as_str());
    let out_empty = out.unicode_len() == 0;
    let err_empty = err.unicode_len() == 0;
    if !out_empty && !err_empty {
        let mut res = String::from_str(out);
        res.append("\n");
        res.append(err);
        res
    } else if !out_empty {
        String::from_str(out)
    } else if !err_empty {
        String::from_str(err)
    } else {
        assert(err@ =~= Seq::<char>::empty());
        String::new()
    }
}

/// The program and arguments that shut a server down over SSH.
#[derive(Debug)]
pub struct SshCommand {
    pub program: String,
    pub args: Vec<String>,
}

/// The remote command run over SSH: with password authentication, a
/// command that uses `sudo` (but not yet `sudo -S`) gets the password piped
/// into `sudo -S`, the password quoted for the shell.
pub open spec fn remote_command(cmd: Seq<char>, password: Option<String>) -> Seq<char> {
    match password {
        Some(p) => if contains_seq(cmd, "sudo"@) && !contains_seq(cmd, "sudo -S"@) {
            "echo '"@ + quote_escaped(p@) + "' | "@ + replaced_first(cmd, "sudo"@, "sudo -S"@)
        } else {
            cmd
        },
        None => cmd,
    }
}

/// The key file argument: given only when no password is configured.
pub open spec fn key_args(server: ServerConfig) -> Seq<Seq<char>> {
    match (server.ssh_password, server.ssh_key_path) {
        (None, Some(k)) => seq!["-i"@, k@],
        _ => Seq::empty(),
    }
}

/// The `ssh` arguments of a shutdown: no host-key checking, a 10 second
/// connection timeout, the key file when there is no password, the target
/// `user@host`, and the remote command.
pub open spec fn ssh_args(server: ServerConfig) -> Seq<Seq<char>> {
    let user = or_default(server.ssh_user, "root"@);
    let cmd = or_default(server.ssh_shutdown_cmd, "sudo shutdown -h now"@);
    seq!["-o"@, "StrictHostKeyChecking=no"@, "-o"@, "ConnectTimeout=10"@]
        + key_args(server)
        + seq![user + "@"@ + server.hostname@, remote_command(cmd, server.ssh_password)]
}

fn remote_command_exec(cmd: &String, password: &Option<String>) -> (res: String)
    ensures
        res@ == remote_command(cmd@, *password),
{
    match password {
        Some(p) => {
            if contains_str(cmd.as_str(), "sudo") && !contains_str(cmd.as_str(), "sudo -S") {
                let mut w = String::from_str("echo '");
                let escaped = escape_single_quotes(p.as_str());
                w.append(escaped.as_str());
                w.append("' | ");
                let replaced = replace_first(cmd.as_str(), "sudo", "sudo -S");
                w.append(replaced.as_str());
                w
            } else {
                cmd.clone()
            }
        },
        None => cmd.clone(),
    }
}

fn ssh_args_exec(server: &ServerConfig) -> (args: Vec<String>)
    ensures
        crate::config::strings_view(args@) == ssh_args(*server),
{
    let user = or_default_exec(&server.ssh_user, "root");
    let cmd = or_default_exec(&server.ssh_shutdown_cmd, "sudo shutdown -h now");
    let mut args: Vec<String> = Vec::new();
    args.push(String::from_str("-o"));
    args.push(String::from_str("StrictHostKeyChecking=no"));
    args.push(String::from_str("-o"));
    args.push(String::from_str("ConnectTimeout=10"));
    let ghost fixed = crate::config::strings_view(args@);
    assert(fixed =~= seq!["-o"@, "StrictHostKeyChecking=no"@, "-o"@, "ConnectTimeout=10"@]);
    let ghost key_part = key_args(*server);
    if server.ssh_password.is_none() {
        match &server.ssh_key_path {
            Some(k) => {
                args.push(String::from_str("-i"));
                args.push(k.clone());
            },
            None => {},
        }
    }
    assert(crate::config::strings_view(args@) =~= fixed + key_part);
    let ghost before = crate::config::strings_view(args@);
    let mut target = user;
    target.append("@");
    target.append(server.hostname.as_str());
    args.push(target);
    args.push(remote_command_exec(&cmd, &server.ssh_password));
    assert(crate::config::strings_view(args@) =~= before + seq![
        or_default(server.ssh_user, "root"@) + "@"@ + server.hostname@,
        remote_command(or_default(server.ssh_shutdown_cmd, "sudo shutdown -h now"@), server.ssh_password),
    ]);
    args
}

/// The shutdown over SSH: `ssh` with its arguments, run through
/// `sshpass -p <password>` when a password is configured.
pub fn ssh_shutdown_command(server: &ServerConfig) -> (c: SshCommand)
    ensures
        c.program@ == if server.ssh_password is Some { "sshpass"@ } else { "ssh"@ },
        crate::config::strings_view(c.args@) == match server.ssh_password {
            Some(p) => seq!["-p"@, p@, "ssh"@] + ssh_args(*server),
            None => ssh_args(*server),
        },
{
    let rest = ssh_args_exec(server);
    match &server.ssh_password {
        Some(p) => {
            let mut args: Vec<String> = Vec::new();
            args.push(String::from_str("-p"));
            args.push(p.clone());
            args.push(String::from_str("ssh"));
            let n = rest.len();
            let ghost head = crate::config::strings_view(args@);
            let mut i: usize = 0;
            while i < n
                invariant
                    n == rest@.len(),
                    i <= n,
                    crate::config::strings_view(args@) == head + crate::config::strings_view(rest@).take(i as int),
                decreases n - i,
            {
                let ghost before = crate::config::strings_view(args@);
                args.push(rest[i].clone());
                assert(crate::config::strings_view(args@) =~= before.push(rest@[i as int]@));
                assert(crate::config::strings_view(rest@).take(i + 1) =~= crate::config::strings_view(rest@).take(i as int).push(rest@[i as int]@));
                assert(crate::config::strings_view(args@) =~= head + crate::config::strings_view(rest@).take(i + 1));
                i += 1;
            }
            assert(crate::config::strings_view(rest@).take(n as int) =~= crate::config::strings_view(rest@));
            assert(head =~= seq!["-p"@, p@, "ssh"@]);
            SshCommand { program: String::from_str("sshpass"), args }
        },
        None => SshCommand { program: String::from_str("ssh"), args: rest },
    }
}

} // verus!
