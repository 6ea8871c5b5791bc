use vstd::prelude::*;

verus! {

/// How the client runs: where it writes, which port it announces, how many
/// peers it talks to and how deep each peer's request pipeline is.
#[derive(Debug, Clone)]
pub struct ClientConfig {
    /// Directory where downloaded files are saved.
    pub download_path: String,
    /// Port announced for incoming peer connections.
    pub listen_port: u16,
    /// Maximum number of peer connections.
    pub max_peers: usize,
    /// Number of block requests outstanding per peer.
    pub max_requests_per_peer: usize,
    /// Seconds allowed for establishing a peer connection.
    pub connection_timeout_secs: u64,
    /// Seconds allowed for the peer's handshake to arrive.
    pub response_timeout_secs: u64,
    /// Seconds before a block request counts as stalled.
    pub request_timeout_secs: u64,
}

impl Default for ClientConfig {
    fn default() -> (r: ClientConfig)
        ensures
            r.download_path@ == "."@,
            r.listen_port == 6881,
            r.max_peers == 50,
            r.max_requests_per_peer == 5,
            r.connection_timeout_secs == 5,
            r.response_timeout_secs == 5,
            r.request_timeout_secs == 30,
    {
        ClientConfig {
            download_path: ".".to_owned(),
            listen_port: 6881,
            max_peers: 50,
            max_requests_per_peer: 5,
            connection_timeout_secs: 5,
            response_timeout_secs: 5,
            request_timeout_secs: 30,
        }
    }
}

impl ClientConfig {
    pub fn with_download_path(self, path: String) -> (r: ClientConfig)
        ensures
            r.download_path == path,
            r.listen_port == self.listen_port,
            r.max_peers == self.max_peers,
            r.max_requests_per_peer == self.max_requests_per_peer,
            r.connection_timeout_secs == self.connection_timeout_secs,
            r.response_timeout_secs == self.response_timeout_secs,
            r.request_timeout_secs == self.request_timeout_secs,
    {
        ClientConfig { download_path: path, ..self }
    }

    pub fn with_max_peers(self, max: usize) -> (r: ClientConfig)
        ensures
            r.max_peers == max,
            r.download_path == self.download_path,
            r.listen_port == self.listen_port,
            r.max_requests_per_peer == self.max_requests_per_peer,
            r.connection_timeout_secs == self.connection_timeout_secs,
            r.response_timeout_secs == self.response_timeout_secs,
            r.request_timeout_secs == self.request_timeout_secs,
    {
        ClientConfig { max_peers: max, ..self }
    }

    pub fn with_listen_port(self, port: u16) -> (r: ClientConfig)
        ensures
            r.listen_port == port,
            r.download_path == self.download_path,
            r.max_peers == self.max_peers,
            r.max_requests_per_peer == self.max_requests_per_peer,
            r.connection_timeout_secs == self.connection_timeout_secs,
            r.response_timeout_secs == self.response_timeout_secs,
            r.request_timeout_secs == self.request_timeout_secs,
    {
        ClientConfig { listen_port: port, ..self }
    }
}

} // verus!
