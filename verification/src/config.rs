//! What a probe is told to do.

use crate::address::Ipv4Addr;
use crate::cpus;
use crate::cpus::parse_ranges;
use vstd::prelude::*;

verus! {

/// The port that DNS resolvers listen on.
pub const DNS_PORT: u16 = 53;

/// The core that is used where none is asked for.
pub const DEFAULT_CPU: usize = 0;

/// The options of the command line.
#[derive(Debug)]
pub struct CliArgs {
    /// The resolver to ask.
    pub endpoint_ip: Ipv4Addr,
    /// The network interface to send on. `None` stands for that of the default route.
    pub retransmit_xdp_interface: Option<String>,
    /// The list of CPU cores, as it was written.
    pub retransmit_xdp_cpu_cores: Option<String>,
    /// Whether to send without copying.
    pub retransmit_xdp_zero_copy: bool,
    /// How long to wait for the answer, in milliseconds.
    pub timeout_ms: u64,
}

/// How to send over XDP.
#[derive(Debug)]
pub struct RetransmitConfig {
    /// The network interface to send on. `None` stands for that of the default route.
    pub interface: Option<String>,
    /// The CPU cores to send from.
    pub cpus: Vec<usize>,
    /// Whether to send without copying.
    pub zero_copy: bool,
}

/// What a probe is told to do.
#[derive(Debug)]
pub struct Config {
    /// How to send over XDP.
    pub xdp_config: RetransmitConfig,
    /// The resolver to ask.
    pub endpoint_ip: Ipv4Addr,
    /// The port of the resolver.
    pub endpoint_port: u16,
    /// How long to wait for the answer, in milliseconds.
    pub timeout_ms: u64,
}

/// Why the options cannot be followed.
#[derive(Debug)]
pub enum ConfigError {
    /// An interface or zero copy was asked for without a list of CPU cores.
    MissingCpuCores,
    /// The list of CPU cores cannot be read. The text quotes the entry.
    CpuCores(String),
}

/// Whether an option was given that makes sense only with a list of CPU cores.
pub open spec fn needs_cpu_cores(args: CliArgs) -> bool {
    args.retransmit_xdp_interface is Some || args.retransmit_xdp_zero_copy
}

/// The cores to send from: those of the list, or the default where no list was given.
pub open spec fn chosen_cpus(read: Option<Result<Seq<usize>, Seq<char>>>) -> Seq<usize> {
    match read {
        Some(Ok(cpus)) => cpus,
        _ => seq![DEFAULT_CPU],
    }
}

/// What is made of the options, given what was read from the list of CPU cores, if there is one.
pub open spec fn configures(
    args: CliArgs,
    read: Option<Result<Seq<usize>, Seq<char>>>,
    result: Result<Config, ConfigError>,
) -> bool {
    match result {
        Err(ConfigError::MissingCpuCores) => read is None && needs_cpu_cores(args),
        Err(ConfigError::CpuCores(text)) => read == Some(
            Err::<Seq<usize>, Seq<char>>(text@),
        ),
        Ok(config) => {
            &&& read is None ==> !needs_cpu_cores(args)
            &&& read matches Some(list) ==> list is Ok
            &&& config.xdp_config.cpus@ == chosen_cpus(read)
            &&& config.xdp_config.interface == args.retransmit_xdp_interface
            &&& config.xdp_config.zero_copy == args.retransmit_xdp_zero_copy
            &&& config.endpoint_ip == args.endpoint_ip
            &&& config.endpoint_port == DNS_PORT
            &&& config.timeout_ms == args.timeout_ms
        },
    }
}

/// What was read from a list of CPU cores, over the contents of the vector or the text.
pub open spec fn read_view(read: Option<Result<Vec<usize>, String>>) -> Option<
    Result<Seq<usize>, Seq<char>>,
> {
    match read {
        Some(Ok(cpus)) => Some(Ok(cpus@)),
        Some(Err(text)) => Some(Err(text@)),
        None => None,
    }
}

/// What is read from the list of CPU cores in the options, if there is one.
pub open spec fn read_list(args: CliArgs) -> Option<Result<Seq<usize>, Seq<char>>> {
    match args.retransmit_xdp_cpu_cores {
        Some(list) => Some(cpus::cpu_ranges(list@)),
        None => None,
    }
}

/// Makes a configuration of the options and of what was read from the list of CPU cores, `None`
/// where no list was given.
pub fn configure(args: CliArgs, read: Option<Result<Vec<usize>, String>>) -> (result: Result<
    Config,
    ConfigError,
>)
    ensures
        configures(args, read_view(read), result),
        result matches Ok(config) ==> {
            &&& config.endpoint_ip@ == args.endpoint_ip@
            &&& config.endpoint_port == 53
            &&& args.timeout_ms == config.timeout_ms
            &&& args.retransmit_xdp_interface == config.xdp_config.interface
            &&& args.retransmit_xdp_zero_copy == config.xdp_config.zero_copy
        },
        match read {
            Some(Ok(cores)) => result matches Ok(config) && config.xdp_config.cpus@ == cores@,
            Some(Err(text)) => result matches Err(ConfigError::CpuCores(quoted)) && quoted@ == text@,
            None => if args.retransmit_xdp_interface is Some || args.retransmit_xdp_zero_copy {
                result matches Err(ConfigError::MissingCpuCores)
            } else {
                result matches Ok(config) && config.xdp_config.cpus@ == seq![0usize]
            },
        },
{
    let cpus: Vec<usize> = match read {
        Some(Ok(cpus)) => cpus,
        Some(Err(text)) => {
            return Err(ConfigError::CpuCores(text));
        },
        None => {
            if args.retransmit_xdp_interface.is_some() || args.retransmit_xdp_zero_copy {
                return Err(ConfigError::MissingCpuCores);
            }
            let cpus: Vec<usize> = vec![DEFAULT_CPU];
            assert(cpus@ =~= seq![DEFAULT_CPU]);
            cpus
        },
    };
    let xdp_config = RetransmitConfig {
        interface: args.retransmit_xdp_interface,
        cpus,
        zero_copy: args.retransmit_xdp_zero_copy,
    };
    Ok(
        Config {
            xdp_config,
            endpoint_ip: args.endpoint_ip,
            endpoint_port: DNS_PORT,
            timeout_ms: args.timeout_ms,
        },
    )
}

/// Makes a configuration of the options. The list of CPU cores, where there is one, must not name
/// more cores than the address space holds.
pub fn parse_args(args: CliArgs) -> (result: Result<Config, ConfigError>)
    requires
        args.retransmit_xdp_cpu_cores matches Some(list) ==> cpus::expandable(list@),
    ensures
        configures(args, read_list(args), result),
        result matches Ok(config) ==> {
            &&& config.endpoint_ip@ == args.endpoint_ip@
            &&& config.endpoint_port == 53
            &&& args.timeout_ms == config.timeout_ms
            &&& args.retransmit_xdp_interface == config.xdp_config.interface
            &&& args.retransmit_xdp_zero_copy == config.xdp_config.zero_copy
        },
        match args.retransmit_xdp_cpu_cores {
            Some(list) => match cpus::cpu_ranges(list@) {
                Ok(cores) => result matches Ok(config) && config.xdp_config.cpus@ == cores,
                Err(text) => result matches Err(ConfigError::CpuCores(quoted)) && quoted@ == text,
            },
            None => if args.retransmit_xdp_interface is Some || args.retransmit_xdp_zero_copy {
                result matches Err(ConfigError::MissingCpuCores)
            } else {
                result matches Ok(config) && config.xdp_config.cpus@ == seq![0usize]
            },
        },
{
    let read: Option<Result<Vec<usize>, String>> = match &args.retransmit_xdp_cpu_cores {
        Some(list) => Some(parse_ranges(list.as_str())),
        None => None,
    };
    configure(args, read)
}

impl RetransmitConfig {
    /// The core to send from: the first of them, if there is one.
    pub fn selected_cpu(&self) -> (cpu: Option<usize>)
        ensures
            cpu == if self.cpus@.len() > 0 {
                Some(self.cpus@[0])
            } else {
                None::<usize>
            },
    {
        if self.cpus.len() > 0 {
            Some(self.cpus[0])
        } else {
            None
        }
    }

    /// Whether cores were given beyond the one to send from.
    pub fn has_unused_cpus(&self) -> (yes: bool)
        ensures
            yes == (self.cpus@.len() > 1),
    {
        self.cpus.len() > 1
    }
}

/// A list that [`cpus::validate_cpu_list`] accepts is never what makes [`parse_args`] fail.
pub proof fn accepted_list_configures(args: CliArgs, result: Result<Config, ConfigError>)
    requires
        args.retransmit_xdp_cpu_cores matches Some(list) && cpus::cpu_ranges(list@) is Ok,
        configures(args, read_list(args), result),
    ensures
        result is Ok,
{
}

/// Without a list of CPU cores a probe sends from the default core.
pub proof fn default_core_is_used(args: CliArgs, result: Result<Config, ConfigError>)
    requires
        args.retransmit_xdp_cpu_cores is None,
        !needs_cpu_cores(args),
        configures(args, read_list(args), result),
    ensures
        result matches Ok(config) && config.xdp_config.cpus@ == seq![DEFAULT_CPU],
{
}

} // verus!
