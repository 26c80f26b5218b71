//! What the plain structures stand for: each of their fields, as it is.
use vstd::prelude::*;
use crate::config::{Config, Defaults};
use crate::dest::DestHash;
use crate::extension;
use crate::http::Response;
use crate::magnet::Magnet;
use crate::metadata::{MetaMsg, MetadataMessage};
use crate::metainfo::MetaInfo;
use crate::resume::Resume;
use crate::torrent::greets;
use crate::tracker::{hashed, AnnounceResponse};
use crate::wire::Handshake;
use crate::world::World;

verus! {

/// A torrent stands for its fields.
pub proof fn law_torrent_fields(m: MetaInfo)
    ensures
        m@.private == m.private,
        m@.info_hash == m.info_hash.0@,
        m@.name == m.name@,
        m@.piece_length == m.piece_length,
        m@.total_length == m.total_length,
        m@.skipped_trackers == m.skipped_trackers,
        m@.raw_info == m.raw_info@,
        m@.pieces.len() == m.pieces@.len(),
        forall|i: int| 0 <= i < m.pieces@.len() ==> #[trigger] m@.pieces[i] == m.pieces@[i]@,
        m@.files.len() == m.files@.len(),
        forall|i: int|
            0 <= i < m.files@.len() ==> (#[trigger] m@.files[i]).length == m.files@[i].length
                && m@.files[i].path.len() == m.files@[i].path@.len(),
        forall|i: int, k: int|
            0 <= i < m.files@.len() && 0 <= k < m.files@[i].path@.len()
                ==> #[trigger] m@.files[i].path[k] == m.files@[i].path@[k]@,
        m@.trackers.len() == m.trackers@.len(),
        forall|i: int|
            0 <= i < m.trackers@.len() ==> (#[trigger] m@.trackers[i]).len()
                == m.trackers@[i]@.len(),
        forall|i: int, k: int|
            0 <= i < m.trackers@.len() && 0 <= k < m.trackers@[i]@.len()
                ==> #[trigger] m@.trackers[i][k] == m.trackers@[i]@[k]@,
{
}

/// A magnet link stands for its fields.
pub proof fn law_link_fields(m: Magnet)
    ensures
        m@.info_hash == Some(m.info_hash@),
        m@.display_name is None <==> m.display_name is None,
        m.display_name is Some ==> m@.display_name->Some_0 == m.display_name->Some_0@,
        m@.skipped == m.skipped_trackers,
        m@.trackers.len() == m.trackers@.len(),
        forall|i: int| 0 <= i < m.trackers@.len() ==> #[trigger] m@.trackers[i] == m.trackers@[i]@,
{
}

/// A configuration stands for its fields, and so do the places it is read
/// against.
pub proof fn law_config_fields(c: Config, d: Defaults)
    ensures
        c@.sam_address == c.sam_address@,
        c@.i_know_sam_is_remote == c.i_know_sam_is_remote,
        c@.data_dir == c.data_dir@,
        c@.api_socket == c.api_socket@,
        c@.ephemeral == c.ephemeral,
        c@.preallocate == c.preallocate,
        c@.peer_limit == c.peer_limit,
        c@.torrent_peer_limit == c.torrent_peer_limit,
        c@.max_active_downloads == c.max_active_downloads,
        c@.max_active_seeds == c.max_active_seeds,
        c@.seed_ratio_milli == c.seed_ratio_milli,
        c@.seed_idle_minutes == c.seed_idle_minutes,
        c@.watch_dir is None <==> c.watch_dir is None,
        c.watch_dir is Some ==> c@.watch_dir->Some_0 == c.watch_dir->Some_0@,
        d@.data_home == d.data_home@,
        d@.config_home == d.config_home@,
        d@.runtime_dir is None <==> d.runtime_dir is None,
        d.runtime_dir is Some ==> d@.runtime_dir->Some_0 == d.runtime_dir->Some_0@,
{
}

/// A saved state stands for its fields.
pub proof fn law_resume_fields(r: Resume)
    ensures
        r@.info_hash == r.info_hash@,
        r@.num_pieces == r.num_pieces,
        r@.have == r.have@,
        r@.verified == r.verified@,
        r@.priorities == r.priorities@,
        r@.uploaded == r.uploaded,
        r@.downloaded == r.downloaded,
        r@.paused == r.paused,
        r@.sequential == r.sequential,
        r@.trackers.len() == r.trackers@.len(),
        forall|i: int|
            0 <= i < r.trackers@.len() ==> (#[trigger] r@.trackers[i]).len()
                == r.trackers@[i]@.len(),
        forall|i: int, k: int|
            0 <= i < r.trackers@.len() && 0 <= k < r.trackers@[i]@.len()
                ==> #[trigger] r@.trackers[i][k] == r.trackers@[i]@[k]@,
{
}

/// An extension handshake stands for its fields.
pub proof fn law_extension_fields(h: extension::Handshake)
    ensures
        h@.metadata_size == h.metadata_size,
        h@.client is None <==> h.client is None,
        h.client is Some ==> h@.client->Some_0 == h.client->Some_0@,
        h@.ids.len() == h.ids@.len(),
        forall|i: int|
            0 <= i < h.ids@.len() ==> #[trigger] h@.ids[i] == (h.ids@[i].0@, h.ids@[i].1),
{
}

/// A metadata message stands for its fields.
pub proof fn law_metadata_fields(m: MetadataMessage)
    ensures
        match m {
            MetadataMessage::Request { piece } => m@ == (MetaMsg::Request { piece }),
            MetadataMessage::Data { piece, total_size, data } => m@ == (MetaMsg::Data {
                piece,
                total_size,
                data: data@,
            }),
            MetadataMessage::Reject { piece } => m@ == (MetaMsg::Reject { piece }),
        },
{
}

/// An answer of a tracker stands for its fields.
pub proof fn law_answer_fields(a: AnnounceResponse)
    ensures
        a@.interval == a.interval,
        a@.min_interval == a.min_interval,
        a@.peers == a.peers@,
        a@.destinations.len() == a.destinations@.len(),
        forall|i: int|
            0 <= i < a.destinations@.len() ==> #[trigger] a@.destinations[i] == a.destinations@[i]@,
{
}

/// A response stands for its fields.
pub proof fn law_response_fields(r: Response)
    ensures
        r@.status == r.status,
        r@.body == r.body@,
        r@.headers.len() == r.headers@.len(),
        forall|i: int|
            0 <= i < r.headers@.len() ==> #[trigger] r@.headers[i] == (
                r.headers@[i].0@,
                r.headers@[i].1@,
            ),
{
}

/// Of the destinations that a tracker names in full, those that hash are peers,
/// in their order, and the others are left out.
pub proof fn law_hashed_peers_keep_their_order(h: Seq<Option<DestHash>>, n: int)
    requires
        0 <= n < h.len(),
    ensures
        hashed(h, 0) == Seq::<DestHash>::empty(),
        h[n] is None ==> hashed(h, n + 1) == hashed(h, n),
        h[n] is Some ==> hashed(h, n + 1) == hashed(h, n).push(h[n]->Some_0),
{
}

/// We greet a peer with the torrent's info-hash and our peer id, as one that
/// speaks the extension protocol and not the fast one.
pub proof fn law_how_we_greet(w: World, h: Handshake)
    ensures
        greets(w, h) <==> h.info_hash@ == w.info_hash && h.peer_id@ == w.peer_id
            && h.extensions.extended && !h.extensions.fast,
{
}

/// The limits that are kept, and how long is waited: milliseconds, and seconds
/// for announces.
pub proof fn law_limits()
    ensures
        crate::swarm::MAX_PENDING_HANDSHAKES == 64,
        crate::torrent::PIPELINE_DEPTH == 16,
        crate::torrent::REQUEST_STRIKES == 3,
        crate::torrent::MAX_CONNECTIONS_PER_DEST == 2,
        crate::torrent::OUTGOING_QUEUE == 256,
        crate::torrent::HANDSHAKE_TIMEOUT == 60_000,
        crate::torrent::HANDSHAKE_POLL == 1_000,
        crate::torrent::DEFAULT_MAINTENANCE_INTERVAL == 5_000,
        crate::reputation::MAX_KNOWN_PEERS == 1024,
        crate::reputation::SUSPICION_LIMIT == 3,
        crate::pex::MAX_PEX_PEERS == 512,
        crate::wire::BLOCK_LEN == 16_384,
        crate::wire::MAX_MESSAGE_LEN == 1_048_576,
        crate::wire::HANDSHAKE_LEN == 68,
        crate::fetch::METADATA_FRAME == 16_640,
        crate::fetch::METADATA_DEADLINE == 120_000,
        crate::fetch::METADATA_IO_TIMEOUT == 30_000,
        crate::fetch::METADATA_GREETING_FRAMES == 64,
        crate::metadata::METADATA_PIECE_LEN == 16_384,
        crate::metadata::MAX_METADATA_SIZE == 8_388_608,
        crate::bencode::MAX_DEPTH == 32,
        crate::json::MAX_DEPTH == 128,
        crate::http::MAX_HEADER_BYTES == 16_384,
        crate::tracker::MIN_ANNOUNCE_INTERVAL == 60,
        crate::tracker::MAX_BACKOFF == 1_800,
        crate::tracker::ANNOUNCE_DEADLINE == 120,
        crate::tracker::ANNOUNCE_IO_TIMEOUT == 30,
        crate::tracker::MAX_RESPONSE_BYTES == 65_536,
        crate::tracker::MAX_TRACKER_TEXT == 512,
{
}

} // verus!
