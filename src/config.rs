//! Runtime configuration: role, listening port, leader endpoint, and the
//! replication id and offset.
use vstd::prelude::*;
use crate::text::{unsigned_in, parse_u128, eq_bytes, copy_bytes};
use vstd::string::StringSliceAdditionalSpecFns;

verus! {

#[derive(Debug, Clone, Copy, PartialEq, Eq, Structural)]
pub enum Role {
    Master,
    Slave,
}

/// The replication id a leader starts with.
pub const DEFAULT_REPLID: &'static str = "8371b4fb1155b71f4a04d3e1bc3e18c4a990aeeb";

pub const DEFAULT_PORT: u32 = 6379;

#[derive(Debug)]
pub struct Config {
    pub port: u32,
    pub master_host: Vec<u8>,
    pub master_port: u32,
    pub role: Role,
    pub master_replid: Vec<u8>,
    pub master_repl_offset: usize,
}

pub struct ConfigModel {
    pub port: nat,
    pub master_host: Seq<u8>,
    pub master_port: nat,
    pub role: Role,
    pub master_replid: Seq<u8>,
    pub master_repl_offset: nat,
}

impl View for Config {
    type V = ConfigModel;

    open spec fn view(&self) -> ConfigModel {
        ConfigModel {
            port: self.port as nat,
            master_host: self.master_host@,
            master_port: self.master_port as nat,
            role: self.role,
            master_replid: self.master_replid@,
            master_repl_offset: self.master_repl_offset as nat,
        }
    }
}

pub open spec fn port_flag() -> Seq<u8> {
    seq![45u8, 45, 112, 111, 114, 116]
}

pub open spec fn replicaof_flag() -> Seq<u8> {
    seq![45u8, 45, 114, 101, 112, 108, 105, 99, 97, 111, 102]
}

/// The replication id a follower holds until its handshake completes.
pub open spec fn unknown_replid() -> Seq<u8> {
    seq![63u8]
}

pub open spec fn default_config() -> ConfigModel {
    ConfigModel {
        port: DEFAULT_PORT as nat,
        master_host: Seq::empty(),
        master_port: 0,
        role: Role::Master,
        master_replid: DEFAULT_REPLID.spec_bytes(),
        master_repl_offset: 0,
    }
}

/// The index `k` arguments on from `i`, or the end.
pub open spec fn next_index(len: nat, i: int, k: int) -> int {
    if i + k < len {
        i + k
    } else {
        len as int
    }
}

/// The configuration after reading the command-line arguments from index `i` on:
/// `--port <n>` sets the listening port when `<n>` is a valid port number;
/// `--replicaof <host> <port>` sets the leader's endpoint, and with a non-zero
/// port makes this server a follower whose replication id is not yet known.
/// Other arguments are skipped.
pub open spec fn apply_args(args: Seq<Seq<u8>>, i: int, c: ConfigModel) -> ConfigModel
    decreases args.len() - i,
{
    if i < 0 || i >= args.len() {
        c
    } else if args[i] == port_flag() {
        let c2 = if i + 1 < args.len() {
            match unsigned_in(args[i + 1], u32::MAX as nat) {
                Some(p) => ConfigModel { port: p, ..c },
                None => c,
            }
        } else {
            c
        };
        apply_args(args, next_index(args.len(), i, 2), c2)
    } else if args[i] == replicaof_flag() {
        let host = if i + 1 < args.len() {
            args[i + 1]
        } else {
            c.master_host
        };
        let mp = if i + 2 < args.len() {
            match unsigned_in(args[i + 2], u32::MAX as nat) {
                Some(p) => p,
                None => 0,
            }
        } else {
            0
        };
        let c2 = ConfigModel { master_host: host, master_port: mp, ..c };
        let c3 = if mp != 0 {
            ConfigModel { role: Role::Slave, master_replid: unknown_replid(), ..c2 }
        } else {
            c2
        };
        apply_args(args, next_index(args.len(), i, 3), c3)
    } else {
        apply_args(args, i + 1, c)
    }
}

pub open spec fn arg_texts(args: Seq<Vec<u8>>) -> Seq<Seq<u8>> {
    Seq::new(args.len(), |i: int| args[i]@)
}

fn parse_u32(s: &[u8]) -> (r: Option<u32>)
    ensures
        r == match unsigned_in(s@, u32::MAX as nat) {
            Some(n) => Some(n as u32),
            None => None::<u32>,
        },
{
    match parse_u128(s) {
        Some(n) => if n <= u32::MAX as u128 {
            Some(n as u32)
        } else {
            None
        },
        None => None,
    }
}

impl Config {
    /// The leader's configuration before any argument is read.
    pub fn new() -> (r: Config)
        ensures
            r@ == default_config(),
    {
        Config {
            port: DEFAULT_PORT,
            master_host: Vec::new(),
            master_port: 0,
            role: Role::Master,
            master_replid: copy_bytes(DEFAULT_REPLID.as_bytes()),
            master_repl_offset: 0,
        }
    }

    /// The configuration that the command-line arguments ask for.
    pub fn from_args(args: &Vec<Vec<u8>>) -> (r: Config)
        ensures
            r@ == apply_args(arg_texts(args@), 0, default_config()),
    {
        let ghost t = arg_texts(args@);
        let l_port: [u8; 6] = [45, 45, 112, 111, 114, 116];
        let l_replicaof: [u8; 11] = [45, 45, 114, 101, 112, 108, 105, 99, 97, 111, 102];
        assert(l_port@ =~= port_flag());
        assert(l_replicaof@ =~= replicaof_flag());
        let mut config = Config::new();
        let mut i: usize = 0;
        let n = args.len();
        while i < n
            invariant
                n == args@.len(),
                i <= n,
                t == arg_texts(args@),
                l_port@ == port_flag(),
                l_replicaof@ == replicaof_flag(),
                apply_args(t, i as int, config@) == apply_args(t, 0, default_config()),
            decreases n - i,
        {
            let a = args[i].as_slice();
            if eq_bytes(a, &l_port) {
                if n - i > 1 {
                    match parse_u32(args[i + 1].as_slice()) {
                        Some(p) => {
                            config.port = p;
                        },
                        None => {},
                    }
                }
                i = if n - i > 2 { i + 2 } else { n };
            } else if eq_bytes(a, &l_replicaof) {
                if n - i > 1 {
                    config.master_host = copy_bytes(args[i + 1].as_slice());
                }
                let mp: u32 = if n - i > 2 {
                    match parse_u32(args[i + 2].as_slice()) {
                        Some(p) => p,
                        None => 0,
                    }
                } else {
                    0
                };
                config.master_port = mp;
                if mp != 0 {
                    config.role = Role::Slave;
                    let mut id: Vec<u8> = Vec::new();
                    id.push(63);
                    assert(id@ =~= unknown_replid());
                    config.master_replid = id;
                }
                i = if n - i > 3 { i + 3 } else { n };
            } else {
                i = i + 1;
            }
        }
        config
    }
}

impl Default for Config {
    fn default() -> (r: Config)
        ensures
            r@ == default_config(),
    {
        Config::new()
    }
}

} // verus!
