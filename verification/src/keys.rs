//! The two key schedules that every peer knows.

use crate::block::{block_count, blocks_intact, decrypted, encrypted, usable_table};
use crate::block_laws::{lemma_round_trip, matched_column, matched_tables};
use crate::crypto::{
    decrypt_rows, encrypt_rows, key_table, rows_held, Crypto, ENCRYPTION_SIZE, KEY_CIPHER,
};
use crate::endian::le_u32;
use vstd::prelude::*;

verus! {

/// The blob of the client's encrypting table.
pub const CLIENT_ENCRYPT_KEYS: [u8; ENCRYPTION_SIZE] = [
    0x12, 0x11, 0x36, 0x00, 0x00, 0x00, 0xD4, 0x53, 0x09, 0x3F, 0x01, 0x41,
    0x5E, 0xE2, 0xE2, 0x68, 0xD3, 0x93, 0x2D, 0x06, 0xDF, 0x20, 0x5A, 0xFC,
    0x08, 0x3F, 0x00, 0xEC, 0x5C, 0xE2, 0xD1, 0x37, 0xD2, 0x93, 0xF0, 0x92,
    0xDE, 0x20, 0x86, 0x1A, 0x08, 0x3F, 0xD2, 0x76, 0x5C, 0xE2, 0xFA, 0x41,
    0xD2, 0x93, 0x86, 0x35, 0xDE, 0x20,
];

/// The blob of the client's decrypting table.
pub const CLIENT_DECRYPT_KEYS: [u8; ENCRYPTION_SIZE] = [
    0x12, 0x11, 0x36, 0x00, 0x00, 0x00, 0xD4, 0x53, 0x09, 0x3F, 0x01, 0x41,
    0x5E, 0xE2, 0xE2, 0x68, 0xD3, 0x93, 0x2D, 0x06, 0xDF, 0x20, 0xA3, 0xDC,
    0x08, 0x3F, 0x78, 0xC5, 0x5C, 0xE2, 0x0A, 0xA4, 0xD2, 0x93, 0x78, 0x80,
    0xDE, 0x20, 0x86, 0x1A, 0x08, 0x3F, 0xD2, 0x76, 0x5C, 0xE2, 0xFA, 0x41,
    0xD2, 0x93, 0x86, 0x35, 0xDE, 0x20,
];

/// The blob of the server's encrypting table.
pub const SERVER_ENCRYPT_KEYS: [u8; ENCRYPTION_SIZE] = [
    0x12, 0x11, 0x36, 0x00, 0x00, 0x00, 0xF5, 0xB9, 0x09, 0x3F, 0x22, 0x6F,
    0x5D, 0xE2, 0xA2, 0xF8, 0xD3, 0x93, 0x8D, 0x3B, 0xDC, 0x20, 0xEA, 0x94,
    0x08, 0x3F, 0xDB, 0x88, 0x5C, 0xE2, 0x23, 0xF0, 0xD2, 0x93, 0x2C, 0xD4,
    0xDE, 0x20, 0xAF, 0x55, 0x08, 0x3F, 0x1E, 0x39, 0x5C, 0xE2, 0x97, 0xF0,
    0xD2, 0x93, 0xE8, 0x5B, 0xDE, 0x20,
];

/// The blob of the server's decrypting table.
pub const SERVER_DECRYPT_KEYS: [u8; ENCRYPTION_SIZE] = [
    0x12, 0x11, 0x36, 0x00, 0x00, 0x00, 0xF5, 0xB9, 0x09, 0x3F, 0x22, 0x6F,
    0x5D, 0xE2, 0xA2, 0xF8, 0xD3, 0x93, 0x8D, 0x3B, 0xDC, 0x20, 0xE8, 0xE1,
    0x08, 0x3F, 0x03, 0xB4, 0x5C, 0xE2, 0xC4, 0x1A, 0xD2, 0x93, 0x3A, 0x8C,
    0xDE, 0x20, 0xAF, 0x55, 0x08, 0x3F, 0x1E, 0x39, 0x5C, 0xE2, 0x97, 0xF0,
    0xD2, 0x93, 0xE8, 0x5B, 0xDE, 0x20,
];

/// The client's encrypting table, word by word.
pub open spec fn client_encrypt_table() -> Seq<u32> {
    seq![
        128079u32, 164742u32, 70235u32, 106898u32,
        23489u32, 11911u32, 19816u32, 13647u32,
        0u32, 0u32, 0u32, 0u32,
        48413u32, 46165u32, 15171u32, 37433u32,
    ]
}

/// The client's decrypting table, word by word.
pub open spec fn client_decrypt_table() -> Seq<u32> {
    seq![
        128079u32, 164742u32, 70235u32, 106898u32,
        0u32, 0u32, 0u32, 0u32,
        31544u32, 2047u32, 57011u32, 10183u32,
        48413u32, 46165u32, 15171u32, 37433u32,
    ]
}

/// The server's encrypting table, word by word.
pub open spec fn server_encrypt_table() -> Seq<u32> {
    seq![
        73326u32, 109989u32, 98843u32, 171058u32,
        13169u32, 19036u32, 35482u32, 29587u32,
        0u32, 0u32, 0u32, 0u32,
        62004u32, 64409u32, 35374u32, 64599u32,
    ]
}

/// The server's decrypting table, word by word.
pub open spec fn server_decrypt_table() -> Seq<u32> {
    seq![
        73326u32, 109989u32, 98843u32, 171058u32,
        0u32, 0u32, 0u32, 0u32,
        18035u32, 30340u32, 24701u32, 11141u32,
        62004u32, 64409u32, 35374u32, 64599u32,
    ]
}

/// The blob of the client's encrypting table holds that table.
pub proof fn lemma_client_encrypt_table()
    ensures
        key_table(CLIENT_ENCRYPT_KEYS@, KEY_CIPHER@, encrypt_rows()) == client_encrypt_table(),
{
    reveal_with_fuel(rows_held, 5);
    assert(le_u32(0xD4u8, 0x53u8, 0x09u8, 0x3Fu8) ^ 0x3F08A79Bu32 == 128079u32
        && le_u32(0x01u8, 0x41u8, 0x5Eu8, 0xE2u8) ^ 0xE25CC287u32 == 164742u32
        && le_u32(0xE2u8, 0x68u8, 0xD3u8, 0x93u8) ^ 0x93D27AB9u32 == 70235u32
        && le_u32(0x2Du8, 0x06u8, 0xDFu8, 0x20u8) ^ 0x20DEA7BFu32 == 106898u32
        && le_u32(0x5Au8, 0xFCu8, 0x08u8, 0x3Fu8) ^ 0x3F08A79Bu32 == 23489u32
        && le_u32(0x00u8, 0xECu8, 0x5Cu8, 0xE2u8) ^ 0xE25CC287u32 == 11911u32
        && le_u32(0xD1u8, 0x37u8, 0xD2u8, 0x93u8) ^ 0x93D27AB9u32 == 19816u32
        && le_u32(0xF0u8, 0x92u8, 0xDEu8, 0x20u8) ^ 0x20DEA7BFu32 == 13647u32
        && le_u32(0x86u8, 0x1Au8, 0x08u8, 0x3Fu8) ^ 0x3F08A79Bu32 == 48413u32
        && le_u32(0xD2u8, 0x76u8, 0x5Cu8, 0xE2u8) ^ 0xE25CC287u32 == 46165u32
        && le_u32(0xFAu8, 0x41u8, 0xD2u8, 0x93u8) ^ 0x93D27AB9u32 == 15171u32
        && le_u32(0x86u8, 0x35u8, 0xDEu8, 0x20u8) ^ 0x20DEA7BFu32 == 37433u32) by (bit_vector);
    let loaded = key_table(CLIENT_ENCRYPT_KEYS@, KEY_CIPHER@, encrypt_rows());
    let table = client_encrypt_table();
    assert forall|k: int| 0 <= k < 16 implies loaded[k] == table[k] by {
        assert(0 <= k / 4 < 4 && 0 <= k % 4 < 4);
    }
    assert(loaded =~= table);
}

/// The blob of the client's decrypting table holds that table.
pub proof fn lemma_client_decrypt_table()
    ensures
        key_table(CLIENT_DECRYPT_KEYS@, KEY_CIPHER@, decrypt_rows()) == client_decrypt_table(),
{
    reveal_with_fuel(rows_held, 5);
    assert(le_u32(0xD4u8, 0x53u8, 0x09u8, 0x3Fu8) ^ 0x3F08A79Bu32 == 128079u32
        && le_u32(0x01u8, 0x41u8, 0x5Eu8, 0xE2u8) ^ 0xE25CC287u32 == 164742u32
        && le_u32(0xE2u8, 0x68u8, 0xD3u8, 0x93u8) ^ 0x93D27AB9u32 == 70235u32
        && le_u32(0x2Du8, 0x06u8, 0xDFu8, 0x20u8) ^ 0x20DEA7BFu32 == 106898u32
        && le_u32(0xA3u8, 0xDCu8, 0x08u8, 0x3Fu8) ^ 0x3F08A79Bu32 == 31544u32
        && le_u32(0x78u8, 0xC5u8, 0x5Cu8, 0xE2u8) ^ 0xE25CC287u32 == 2047u32
        && le_u32(0x0Au8, 0xA4u8, 0xD2u8, 0x93u8) ^ 0x93D27AB9u32 == 57011u32
        && le_u32(0x78u8, 0x80u8, 0xDEu8, 0x20u8) ^ 0x20DEA7BFu32 == 10183u32
        && le_u32(0x86u8, 0x1Au8, 0x08u8, 0x3Fu8) ^ 0x3F08A79Bu32 == 48413u32
        && le_u32(0xD2u8, 0x76u8, 0x5Cu8, 0xE2u8) ^ 0xE25CC287u32 == 46165u32
        && le_u32(0xFAu8, 0x41u8, 0xD2u8, 0x93u8) ^ 0x93D27AB9u32 == 15171u32
        && le_u32(0x86u8, 0x35u8, 0xDEu8, 0x20u8) ^ 0x20DEA7BFu32 == 37433u32) by (bit_vector);
    let loaded = key_table(CLIENT_DECRYPT_KEYS@, KEY_CIPHER@, decrypt_rows());
    let table = client_decrypt_table();
    assert forall|k: int| 0 <= k < 16 implies loaded[k] == table[k] by {
        assert(0 <= k / 4 < 4 && 0 <= k % 4 < 4);
    }
    assert(loaded =~= table);
}

/// The blob of the server's encrypting table holds that table.
pub proof fn lemma_server_encrypt_table()
    ensures
        key_table(SERVER_ENCRYPT_KEYS@, KEY_CIPHER@, encrypt_rows()) == server_encrypt_table(),
{
    reveal_with_fuel(rows_held, 5);
    assert(le_u32(0xF5u8, 0xB9u8, 0x09u8, 0x3Fu8) ^ 0x3F08A79Bu32 == 73326u32
        && le_u32(0x22u8, 0x6Fu8, 0x5Du8, 0xE2u8) ^ 0xE25CC287u32 == 109989u32
        && le_u32(0xA2u8, 0xF8u8, 0xD3u8, 0x93u8) ^ 0x93D27AB9u32 == 98843u32
        && le_u32(0x8Du8, 0x3Bu8, 0xDCu8, 0x20u8) ^ 0x20DEA7BFu32 == 171058u32
        && le_u32(0xEAu8, 0x94u8, 0x08u8, 0x3Fu8) ^ 0x3F08A79Bu32 == 13169u32
        && le_u32(0xDBu8, 0x88u8, 0x5Cu8, 0xE2u8) ^ 0xE25CC287u32 == 19036u32
        && le_u32(0x23u8, 0xF0u8, 0xD2u8, 0x93u8) ^ 0x93D27AB9u32 == 35482u32
        && le_u32(0x2Cu8, 0xD4u8, 0xDEu8, 0x20u8) ^ 0x20DEA7BFu32 == 29587u32
        && le_u32(0xAFu8, 0x55u8, 0x08u8, 0x3Fu8) ^ 0x3F08A79Bu32 == 62004u32
        && le_u32(0x1Eu8, 0x39u8, 0x5Cu8, 0xE2u8) ^ 0xE25CC287u32 == 64409u32
        && le_u32(0x97u8, 0xF0u8, 0xD2u8, 0x93u8) ^ 0x93D27AB9u32 == 35374u32
        && le_u32(0xE8u8, 0x5Bu8, 0xDEu8, 0x20u8) ^ 0x20DEA7BFu32 == 64599u32) by (bit_vector);
    let loaded = key_table(SERVER_ENCRYPT_KEYS@, KEY_CIPHER@, encrypt_rows());
    let table = server_encrypt_table();
    assert forall|k: int| 0 <= k < 16 implies loaded[k] == table[k] by {
        assert(0 <= k / 4 < 4 && 0 <= k % 4 < 4);
    }
    assert(loaded =~= table);
}

/// The blob of the server's decrypting table holds that table.
pub proof fn lemma_server_decrypt_table()
    ensures
        key_table(SERVER_DECRYPT_KEYS@, KEY_CIPHER@, decrypt_rows()) == server_decrypt_table(),
{
    reveal_with_fuel(rows_held, 5);
    assert(le_u32(0xF5u8, 0xB9u8, 0x09u8, 0x3Fu8) ^ 0x3F08A79Bu32 == 73326u32
        && le_u32(0x22u8, 0x6Fu8, 0x5Du8, 0xE2u8) ^ 0xE25CC287u32 == 109989u32
        && le_u32(0xA2u8, 0xF8u8, 0xD3u8, 0x93u8) ^ 0x93D27AB9u32 == 98843u32
        && le_u32(0x8Du8, 0x3Bu8, 0xDCu8, 0x20u8) ^ 0x20DEA7BFu32 == 171058u32
        && le_u32(0xE8u8, 0xE1u8, 0x08u8, 0x3Fu8) ^ 0x3F08A79Bu32 == 18035u32
        && le_u32(0x03u8, 0xB4u8, 0x5Cu8, 0xE2u8) ^ 0xE25CC287u32 == 30340u32
        && le_u32(0xC4u8, 0x1Au8, 0xD2u8, 0x93u8) ^ 0x93D27AB9u32 == 24701u32
        && le_u32(0x3Au8, 0x8Cu8, 0xDEu8, 0x20u8) ^ 0x20DEA7BFu32 == 11141u32
        && le_u32(0xAFu8, 0x55u8, 0x08u8, 0x3Fu8) ^ 0x3F08A79Bu32 == 62004u32
        && le_u32(0x1Eu8, 0x39u8, 0x5Cu8, 0xE2u8) ^ 0xE25CC287u32 == 64409u32
        && le_u32(0x97u8, 0xF0u8, 0xD2u8, 0x93u8) ^ 0x93D27AB9u32 == 35374u32
        && le_u32(0xE8u8, 0x5Bu8, 0xDEu8, 0x20u8) ^ 0x20DEA7BFu32 == 64599u32) by (bit_vector);
    let loaded = key_table(SERVER_DECRYPT_KEYS@, KEY_CIPHER@, decrypt_rows());
    let table = server_decrypt_table();
    assert forall|k: int| 0 <= k < 16 implies loaded[k] == table[k] by {
        assert(0 <= k / 4 < 4 && 0 <= k % 4 < 4);
    }
    assert(loaded =~= table);
}

/// The key schedule of the client. Its two tables undo each other.
pub fn client() -> (scheme: Crypto)
    ensures
        scheme.encrypt_table() == client_encrypt_table(),
        scheme.decrypt_table() == client_decrypt_table(),
        usable_table(scheme.encrypt_table()),
        usable_table(scheme.decrypt_table()),
        matched_tables(scheme.encrypt_table(), scheme.decrypt_table()),
{
    proof {
        lemma_client_encrypt_table();
        lemma_client_decrypt_table();
        lemma_client_matched();
    }
    Crypto::new(&CLIENT_ENCRYPT_KEYS, &CLIENT_DECRYPT_KEYS, &KEY_CIPHER)
}

/// The key schedule of the server. Its two tables undo each other.
pub fn server() -> (scheme: Crypto)
    ensures
        scheme.encrypt_table() == server_encrypt_table(),
        scheme.decrypt_table() == server_decrypt_table(),
        usable_table(scheme.encrypt_table()),
        usable_table(scheme.decrypt_table()),
        matched_tables(scheme.encrypt_table(), scheme.decrypt_table()),
{
    proof {
        lemma_server_encrypt_table();
        lemma_server_decrypt_table();
        lemma_server_matched();
    }
    Crypto::new(&SERVER_ENCRYPT_KEYS, &SERVER_DECRYPT_KEYS, &KEY_CIPHER)
}

/// The two tables of the client undo each other.
pub proof fn lemma_client_matched()
    ensures
        matched_tables(client_encrypt_table(), client_decrypt_table()),
        usable_table(client_encrypt_table()),
        usable_table(client_decrypt_table()),
{
    let enc = client_encrypt_table();
    let dec = client_decrypt_table();
    assert(matched_column(enc, dec, 0));
    assert(matched_column(enc, dec, 1));
    assert(matched_column(enc, dec, 2));
    assert(matched_column(enc, dec, 3));
}

/// The two tables of the server undo each other.
pub proof fn lemma_server_matched()
    ensures
        matched_tables(server_encrypt_table(), server_decrypt_table()),
        usable_table(server_encrypt_table()),
        usable_table(server_decrypt_table()),
{
    let enc = server_encrypt_table();
    let dec = server_decrypt_table();
    assert(matched_column(enc, dec, 0));
    assert(matched_column(enc, dec, 1));
    assert(matched_column(enc, dec, 2));
    assert(matched_column(enc, dec, 3));
}

/// **Round trip under the built-in schedules.** What the client's
/// schedule encrypts it also decrypts, whatever the plain text, and so
/// does the server's.
pub proof fn lemma_builtin_round_trip(data: Seq<u8>)
    ensures
        blocks_intact(
            client_decrypt_table(),
            encrypted(client_encrypt_table(), data),
            block_count(data.len() as int, 8),
        ),
        decrypted(client_decrypt_table(), encrypted(client_encrypt_table(), data)) == data,
        blocks_intact(
            server_decrypt_table(),
            encrypted(server_encrypt_table(), data),
            block_count(data.len() as int, 8),
        ),
        decrypted(server_decrypt_table(), encrypted(server_encrypt_table(), data)) == data,
{
    lemma_client_matched();
    lemma_server_matched();
    lemma_round_trip(client_encrypt_table(), client_decrypt_table(), data);
    lemma_round_trip(server_encrypt_table(), server_decrypt_table(), data);
}

} // verus!
