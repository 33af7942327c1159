//! Tests of the secondary index, of a user-supplied container, and of
//! the offline converter, with a caller-defined value type and codec.

use logmap::{
    Cfg, ConvertError, DeepClone, DeepView, Format, Integrity, KeyExtractor, KvCodec,
    LoadFileError, MapOperation, MapTrait, MapWithFile, SerializedError, SpecMap, SpecSeq,
    Transform, VecMap,
};

#[derive(Clone, Debug, PartialEq)]
struct User {
    name: String,
    age: u8,
}

impl DeepView for User {
    type V = User;

    fn deep_view(&self) -> User {
        unreachable!()
    }
}

impl DeepClone for User {
    fn deep_clone(&self) -> Self {
        self.clone()
    }
}

struct NameExtract;

impl KeyExtractor<User, String> for NameExtract {
    fn key_spec(&self, _v: User) -> SpecSeq<char> {
        unreachable!()
    }

    fn extract(&self, v: &User) -> String {
        v.name.clone()
    }
}

/// Text codec for `(i64, User)` pairs, writing the same compact JSON the
/// shipped serializer would.
struct UserCodec;

fn user_json(k: i64, u: &User) -> Vec<u8> {
    format!("[{},{{\"name\":\"{}\",\"age\":{}}}]", k, u.name, u.age).into_bytes()
}

fn parse_user_json(b: &[u8]) -> Option<(i64, User)> {
    let s = std::str::from_utf8(b).ok()?;
    let s = s.strip_prefix('[')?.strip_suffix(']')?;
    let comma = s.find(',')?;
    let k: i64 = s[..comma].parse().ok()?;
    let obj = &s[comma + 1..];
    let name_at = obj.find("\"name\":\"")? + 8;
    let name_end = name_at + obj[name_at..].find('"')?;
    let name = obj[name_at..name_end].to_string();
    let age_at = obj.find("\"age\":")? + 6;
    let age_end = obj[age_at..]
        .find(|c: char| !c.is_ascii_digit())
        .map(|d| age_at + d)
        .unwrap_or(obj.len());
    let age: u8 = obj[age_at..age_end].parse().ok()?;
    Some((k, User { name, age }))
}

impl KvCodec<i64, User> for UserCodec {
    fn text_pair_encodable(_: i64, _: User) -> bool {
        unreachable!()
    }

    fn text_key_encodable(_: i64) -> bool {
        unreachable!()
    }

    fn bin_pair_encodable(_: i64, _: User) -> bool {
        unreachable!()
    }

    fn bin_key_encodable(_: i64) -> bool {
        unreachable!()
    }

    fn text_pair(_: i64, _: User) -> SpecSeq<u8> {
        unreachable!()
    }

    fn text_pair_dec(_: SpecSeq<u8>) -> Option<(i64, User)> {
        unreachable!()
    }

    fn text_key(_: i64) -> SpecSeq<u8> {
        unreachable!()
    }

    fn text_key_dec(_: SpecSeq<u8>) -> Option<i64> {
        unreachable!()
    }

    fn bin_pair(_: i64, _: User) -> SpecSeq<u8> {
        unreachable!()
    }

    fn bin_pair_dec(_: SpecSeq<u8>) -> Option<(i64, User)> {
        unreachable!()
    }

    fn bin_key(_: i64) -> SpecSeq<u8> {
        unreachable!()
    }

    fn bin_key_dec(_: SpecSeq<u8>) -> Option<i64> {
        unreachable!()
    }

    fn enc_pair_text(k: &i64, v: &User) -> Result<Vec<u8>, SerializedError> {
        Ok(user_json(*k, v))
    }

    fn dec_pair_text(b: &[u8]) -> Option<(i64, User)> {
        parse_user_json(b)
    }

    fn enc_key_text(k: &i64) -> Result<Vec<u8>, SerializedError> {
        Ok(format!("{}", k).into_bytes())
    }

    fn dec_key_text(b: &[u8]) -> Option<i64> {
        std::str::from_utf8(b).ok()?.parse().ok()
    }

    fn enc_pair_bin(_k: &i64, _v: &User) -> Result<Vec<u8>, SerializedError> {
        Err(SerializedError::Bincode)
    }

    fn dec_pair_bin(_b: &[u8]) -> Option<(i64, User)> {
        None
    }

    fn enc_key_bin(_k: &i64) -> Result<Vec<u8>, SerializedError> {
        Err(SerializedError::Bincode)
    }

    fn dec_key_bin(_b: &[u8]) -> Option<i64> {
        None
    }
}

type UserMap = MapWithFile<i64, User, VecMap<i64, User>, UserCodec>;

fn user(name: &str, age: u8) -> User {
    User { name: name.to_string(), age }
}

#[test]
fn btree_index() {
    let mut map: UserMap = MapWithFile::open_from_log(Vec::new(), Cfg::default()).unwrap();
    let mut user_name_index = map.create_btree_index(NameExtract);

    map.insert_indexed(&mut user_name_index, 0, user("Mary", 21)).unwrap();
    map.insert_indexed(&mut user_name_index, 1, user("John", 37)).unwrap();

    assert_eq!(user_name_index.get(&"John".to_string()), vec![1]);
    assert!(user_name_index.get(&"Masha".to_string()).is_empty());

    map.insert_indexed(&mut user_name_index, 3, user("Masha", 27)).unwrap();
    map.insert_indexed(&mut user_name_index, 0, user("Natasha", 23)).unwrap();

    assert_eq!(user_name_index.get(&"Natasha".to_string()), vec![0]);
    assert!(user_name_index.get(&"Mary".to_string()).is_empty());
    assert_eq!(user_name_index.get(&"Masha".to_string()), vec![3]);
    map.insert_indexed(&mut user_name_index, 5, user("Natasha", 25)).unwrap();

    map.insert_indexed(&mut user_name_index, 1, user("Bob", 27)).unwrap();
    assert!(user_name_index.get(&"John".to_string()).is_empty());

    map.remove_indexed(&mut user_name_index, &1).unwrap();
    assert!(user_name_index.get(&"Bob".to_string()).is_empty());

    map.insert_indexed(&mut user_name_index, 8, user("Masha", 23)).unwrap();
    map.insert_indexed(&mut user_name_index, 12, user("Masha", 24)).unwrap();
    assert_eq!(user_name_index.get(&"Masha".to_string()), vec![3, 8, 12]);

    map.insert_indexed(&mut user_name_index, 8, user("Natasha", 35)).unwrap();
    assert_eq!(user_name_index.get(&"Masha".to_string()), vec![3, 12]);
    assert_eq!(user_name_index.get(&"Natasha".to_string()), vec![0, 5, 8]);
}

#[test]
fn hashmap_index() {
    let mut map: UserMap = MapWithFile::open_from_log(Vec::new(), Cfg::default()).unwrap();
    let mut user_name_index = map.create_hashmap_index(NameExtract);

    map.insert_indexed(&mut user_name_index, 0, user("Mary", 21)).unwrap();
    map.insert_indexed(&mut user_name_index, 1, user("John", 37)).unwrap();

    assert_eq!(user_name_index.get(&"John".to_string()), vec![1]);
    assert!(user_name_index.get(&"Masha".to_string()).is_empty());

    map.insert_indexed(&mut user_name_index, 3, user("Masha", 27)).unwrap();
    map.insert_indexed(&mut user_name_index, 0, user("Natasha", 23)).unwrap();

    assert_eq!(user_name_index.get(&"Natasha".to_string()), vec![0]);
    assert!(user_name_index.get(&"Mary".to_string()).is_empty());
    assert_eq!(user_name_index.get(&"Masha".to_string()), vec![3]);
    map.insert_indexed(&mut user_name_index, 5, user("Natasha", 25)).unwrap();

    map.insert_indexed(&mut user_name_index, 1, user("Bob", 27)).unwrap();
    assert!(user_name_index.get(&"John".to_string()).is_empty());

    map.remove_indexed(&mut user_name_index, &1).unwrap();
    assert!(user_name_index.get(&"Bob".to_string()).is_empty());

    map.insert_indexed(&mut user_name_index, 8, user("Masha", 23)).unwrap();
    map.insert_indexed(&mut user_name_index, 12, user("Masha", 24)).unwrap();
    assert_eq!(user_name_index.get(&"Masha".to_string()), vec![3, 8, 12]);

    map.insert_indexed(&mut user_name_index, 8, user("Natasha", 35)).unwrap();
    assert_eq!(user_name_index.get(&"Masha".to_string()), vec![3, 12]);
    assert_eq!(user_name_index.get(&"Natasha".to_string()), vec![0, 5, 8]);
}

#[derive(Clone, Debug)]
struct NewUser {
    name: String,
    last_visit_date_time: Option<u64>,
}

impl DeepView for NewUser {
    type V = NewUser;

    fn deep_view(&self) -> NewUser {
        unreachable!()
    }
}

impl DeepClone for NewUser {
    fn deep_clone(&self) -> Self {
        self.clone()
    }
}

struct NewUserCodec;

impl KvCodec<i64, NewUser> for NewUserCodec {
    fn text_pair_encodable(_: i64, _: NewUser) -> bool {
        unreachable!()
    }

    fn text_key_encodable(_: i64) -> bool {
        unreachable!()
    }

    fn bin_pair_encodable(_: i64, _: NewUser) -> bool {
        unreachable!()
    }

    fn bin_key_encodable(_: i64) -> bool {
        unreachable!()
    }

    fn text_pair(_: i64, _: NewUser) -> SpecSeq<u8> {
        unreachable!()
    }

    fn text_pair_dec(_: SpecSeq<u8>) -> Option<(i64, NewUser)> {
        unreachable!()
    }

    fn text_key(_: i64) -> SpecSeq<u8> {
        unreachable!()
    }

    fn text_key_dec(_: SpecSeq<u8>) -> Option<i64> {
        unreachable!()
    }

    fn bin_pair(_: i64, _: NewUser) -> SpecSeq<u8> {
        unreachable!()
    }

    fn bin_pair_dec(_: SpecSeq<u8>) -> Option<(i64, NewUser)> {
        unreachable!()
    }

    fn bin_key(_: i64) -> SpecSeq<u8> {
        unreachable!()
    }

    fn bin_key_dec(_: SpecSeq<u8>) -> Option<i64> {
        unreachable!()
    }

    fn enc_pair_text(k: &i64, v: &NewUser) -> Result<Vec<u8>, SerializedError> {
        let visit = match v.last_visit_date_time {
            Some(t) => format!("{}", t),
            None => "null".to_string(),
        };
        Ok(
            format!(
                "[{},{{\"name\":\"{}\",\"last_visit_date_time\":{}}}]",
                k, v.name, visit
            )
            .into_bytes(),
        )
    }

    fn dec_pair_text(_b: &[u8]) -> Option<(i64, NewUser)> {
        None
    }

    fn enc_key_text(k: &i64) -> Result<Vec<u8>, SerializedError> {
        Ok(format!("{}", k).into_bytes())
    }

    fn dec_key_text(b: &[u8]) -> Option<i64> {
        std::str::from_utf8(b).ok()?.parse().ok()
    }

    fn enc_pair_bin(_k: &i64, _v: &NewUser) -> Result<Vec<u8>, SerializedError> {
        Err(SerializedError::Bincode)
    }

    fn dec_pair_bin(_b: &[u8]) -> Option<(i64, NewUser)> {
        None
    }

    fn enc_key_bin(_k: &i64) -> Result<Vec<u8>, SerializedError> {
        Err(SerializedError::Bincode)
    }

    fn dec_key_bin(_b: &[u8]) -> Option<i64> {
        None
    }
}

struct SameUser;

impl Transform<i64, User, i64, User> for SameUser {
    fn spec_transform(&self, _op: MapOperation<i64, User>) -> MapOperation<i64, User> {
        unreachable!()
    }

    fn apply(&self, op: MapOperation<i64, User>) -> MapOperation<i64, User> {
        op
    }
}

struct Migrate;

impl Transform<i64, User, i64, NewUser> for Migrate {
    fn spec_transform(&self, _op: MapOperation<i64, User>) -> MapOperation<i64, NewUser> {
        unreachable!()
    }

    fn apply(&self, op: MapOperation<i64, User>) -> MapOperation<i64, NewUser> {
        match op {
            MapOperation::Insert(key, u) => MapOperation::Insert(
                key,
                NewUser { name: u.name, last_visit_date_time: None },
            ),
            MapOperation::Remove(key) => MapOperation::Remove(key),
        }
    }
}

#[test]
fn convert() {
    let mut users: UserMap = MapWithFile::open_from_log(Vec::new(), Cfg::default()).unwrap();
    users.insert(0, user("Masha", 23)).unwrap();
    users.insert(3, user("Sasha", 58)).unwrap();
    users.insert(5, user("Pasha", 33)).unwrap();
    let src = users.take_pending();

    let expected = "ins [0,{\"name\":\"Masha\",\"age\":23}]\n\
                    ins [3,{\"name\":\"Sasha\",\"age\":58}]\n\
                    ins [5,{\"name\":\"Pasha\",\"age\":33}]\n";
    assert_eq!(String::from_utf8(src.clone()).unwrap(), expected);

    // convert for a new configuration of storing, with a SHA-256 chain
    let old_cfg = Cfg::default();
    let new_cfg = Cfg { format: Format::Text, integrity: Some(Integrity::Sha256Chain([0; 32])) };
    let converted = logmap::convert::<i64, User, i64, User, UserCodec, UserCodec, _>(
        &src, old_cfg, new_cfg, &SameUser,
    )
    .unwrap();

    let expected = "ins [0,{\"name\":\"Masha\",\"age\":23}] 5b2bb07c78852e70bcb0bd003bb00417ce2cf27d83c508835d0e434da1d0655f\n\
                    ins [3,{\"name\":\"Sasha\",\"age\":58}] a5acf8fc1b4a5ace0c5a2de7ea5ef4befc1feb56f1197d4726179ea31a6757a2\n\
                    ins [5,{\"name\":\"Pasha\",\"age\":33}] 857aefa8e960ba47f5b71eb95b04c1da928f053d6565731a17cb49e3c92e030c\n";
    assert_eq!(String::from_utf8(converted.clone()).unwrap(), expected);

    // convert for a new value structure and a CRC-32 integrity
    let old_cfg = Cfg { format: Format::Text, integrity: Some(Integrity::Sha256Chain([0; 32])) };
    let new_cfg = Cfg { format: Format::Text, integrity: Some(Integrity::Crc32) };
    let converted2 = logmap::convert::<i64, User, i64, NewUser, UserCodec, NewUserCodec, _>(
        &converted, old_cfg, new_cfg, &Migrate,
    )
    .unwrap();

    let expected = "ins [0,{\"name\":\"Masha\",\"last_visit_date_time\":null}] 2937967141\n\
                    ins [3,{\"name\":\"Sasha\",\"last_visit_date_time\":null}] 1287121668\n\
                    ins [5,{\"name\":\"Pasha\",\"last_visit_date_time\":null}] 2217782757\n";
    assert_eq!(String::from_utf8(converted2).unwrap(), expected);
}

#[test]
fn convert_reports_source_errors() {
    let src = b"ins [0,{\"name\":\"Masha\",\"age\":23}] 1\n".to_vec();
    let old_cfg = Cfg { format: Format::Text, integrity: Some(Integrity::Crc32) };
    let res = logmap::convert::<i64, User, i64, User, UserCodec, UserCodec, _>(
        &src,
        old_cfg,
        Cfg::default(),
        &SameUser,
    );
    assert!(matches!(
        res,
        Err(ConvertError::LoadFileError(LoadFileError::IntegrityError(_)))
    ));
}

/// A caller-supplied container: a sorted vector behind [`MapTrait`].
struct StupidMap<K, V> {
    vec: Vec<(K, V)>,
}

impl MapTrait<i64, String> for StupidMap<i64, String> {
    fn view(&self) -> SpecMap<i64, SpecSeq<char>> {
        unreachable!()
    }

    fn wf(&self) -> bool {
        unreachable!()
    }

    fn empty() -> Self {
        StupidMap { vec: Vec::new() }
    }

    fn get(&self, key: &i64) -> Option<&String> {
        match self.vec.binary_search_by(|(k, _)| k.cmp(key)) {
            Ok(index) => self.vec.get(index).map(|(_, val)| val),
            Err(_) => None,
        }
    }

    fn insert(&mut self, key: i64, value: String) -> Option<String> {
        match self.vec.binary_search_by(|(k, _)| k.cmp(&key)) {
            Ok(index) => {
                let mut value = value;
                std::mem::swap(&mut self.vec[index].1, &mut value);
                Some(value)
            },
            Err(slot) => {
                self.vec.insert(slot, (key, value));
                None
            },
        }
    }

    fn remove(&mut self, key: &i64) -> Option<String> {
        match self.vec.binary_search_by(|(k, _)| k.cmp(key)) {
            Ok(index) => {
                let (_, old_val) = self.vec.remove(index);
                Some(old_val)
            },
            Err(_) => None,
        }
    }

    fn entries(&self) -> Vec<(i64, String)> {
        self.vec.clone()
    }
}

type StupidMapWithFile = MapWithFile<i64, String, StupidMap<i64, String>, logmap::I64StringCodec>;

#[test]
fn arbitrary_map() {
    let mut map: StupidMapWithFile =
        MapWithFile::open_from_log(Vec::new(), Cfg::default()).unwrap();

    map.insert(0, "Masha".to_string()).unwrap();
    map.insert(1, "Sasha".to_string()).unwrap();
    map.insert(3, "Natasha".to_string()).unwrap();
    map.remove(&1).unwrap();

    assert_eq!(map.get(&0), Some(&"Masha".to_string()));
    assert_eq!(map.get(&1), None);
    assert_eq!(map.get(&3), Some(&"Natasha".to_string()));

    let file_content = String::from_utf8(map.take_pending()).unwrap();
    let expected = "ins [0,\"Masha\"]\n\
                    ins [1,\"Sasha\"]\n\
                    ins [3,\"Natasha\"]\n\
                    rem 1\n";
    assert_eq!(file_content, expected);
}
