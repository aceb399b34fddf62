use std::collections::HashMap;

use chrono::Datelike;
use muninn::repos::messages::{
    appended, day_file, day_folder_dates, latest_before, listing_step, user_root, ChatModel, Date,
    FsMessageRepo, Listing, MockMessageRepo, RepoError,
};

const ROOT: &str = "/data";

/// Day files by path, standing in for the disk.
struct Disk {
    files: HashMap<String, Vec<ChatModel>>,
}

impl Disk {
    fn new() -> Disk {
        Disk { files: HashMap::new() }
    }

    fn read(&self, path: &str) -> Vec<ChatModel> {
        self.files.get(path).cloned().unwrap_or_default()
    }

    fn day_names(&self, user: &str) -> Vec<String> {
        let prefix = format!("{}/", user_root(&ROOT.to_string(), &user.to_string()));
        let mut names: Vec<String> = Vec::new();
        for path in self.files.keys() {
            if let Some(rest) = path.strip_prefix(&prefix) {
                let name = rest.split('/').next().unwrap().to_string();
                if !names.contains(&name) {
                    names.push(name);
                }
            }
        }
        names
    }
}

fn today() -> Date {
    let t = chrono::Local::now().date_naive();
    Date::from_ymd(t.year(), t.month(), t.day()).unwrap()
}

fn days_ago(n: i64) -> Date {
    let t = chrono::Local::now().date_naive() - chrono::Duration::days(n);
    Date::from_ymd(t.year(), t.month(), t.day()).unwrap()
}

fn embedding() -> Vec<u32> {
    vec![0.1f32.to_bits(), 0.2f32.to_bits(), 0.3f32.to_bits()]
}

fn chat(hash: &str) -> ChatModel {
    ChatModel {
        role: "user".to_string(),
        content: "Hello".to_string(),
        hash: hash.to_string(),
        embedding: embedding(),
    }
}

fn save(repo: &mut FsMessageRepo, disk: &mut Disk, date: &Date, user: &str, c: ChatModel) -> ChatModel {
    let stored = repo.save_chat(user.to_string(), c.clone());
    let path = day_file(&ROOT.to_string(), &user.to_string(), date);
    let day = disk.read(&path);
    disk.files.insert(path, appended(day, c));
    stored
}

fn get(repo: &mut FsMessageRepo, disk: &Disk, user: &str, id: &str) -> Result<ChatModel, RepoError> {
    let path = day_file(&ROOT.to_string(), &user.to_string(), &today());
    let day = disk.read(&path);
    repo.get_chat(user.to_string(), id.to_string(), &day)
}

fn list_all(disk: &Disk, user: &str, today: &Date) -> Vec<ChatModel> {
    let days = day_folder_dates(&disk.day_names(user));
    let mut date = *today;
    loop {
        let day = disk.read(&day_file(&ROOT.to_string(), &user.to_string(), &date));
        match listing_step(day, &date, &days) {
            Listing::Done(v) => return v,
            Listing::Load(d) => date = d,
        }
    }
}

fn cosine(v1: &[u32], v2: &[u32]) -> f32 {
    let a: Vec<f32> = v1.iter().map(|b| f32::from_bits(*b)).collect();
    let b: Vec<f32> = v2.iter().map(|b| f32::from_bits(*b)).collect();
    let dot: f32 = a.iter().zip(&b).map(|(x, y)| x * y).sum();
    let na: f32 = a.iter().map(|x| x * x).sum::<f32>().sqrt();
    let nb: f32 = b.iter().map(|x| x * x).sum::<f32>().sqrt();
    if na == 0.0 || nb == 0.0 {
        0.0
    } else {
        dot / (na * nb)
    }
}

#[test]
fn test_save_chat_and_get_chat() {
    let id = uuid::Uuid::new_v4().to_string();
    let c = chat(&id);
    let mut repo = FsMessageRepo::new();
    let mut disk = Disk::new();
    save(&mut repo, &mut disk, &today(), "test_user", c.clone());
    let got = get(&mut repo, &disk, "test_user", &id).unwrap();
    assert_eq!(got.role, "user");
    assert_eq!(got.content, "Hello");
    assert_eq!(got.hash, id);
}

#[test]
fn test_get_chat_when_no_user() {
    let id = uuid::Uuid::new_v4().to_string();
    let mut repo = FsMessageRepo::new();
    let mut disk = Disk::new();
    save(&mut repo, &mut disk, &today(), "test_user", chat(&id));
    let got = get(&mut repo, &disk, "test_user2", &id);
    assert!(got.is_err());
}

#[test]
fn test_get_when_there_is_no_chat() {
    let id = uuid::Uuid::new_v4().to_string();
    let mut repo = FsMessageRepo::new();
    let mut disk = Disk::new();
    save(&mut repo, &mut disk, &today(), "test_user", chat(&id));
    let got = get(&mut repo, &disk, "test_user", &uuid::Uuid::new_v4().to_string());
    assert!(got.is_err());
}

#[test]
fn test_embeddings_search_for_user() {
    let id = uuid::Uuid::new_v4().to_string();
    let mut repo = FsMessageRepo::new();
    let mut disk = Disk::new();
    save(&mut repo, &mut disk, &today(), "test_user", chat(&id));
    let query = embedding();
    let results: Vec<(f32, ChatModel)> = list_all(&disk, "test_user", &today())
        .into_iter()
        .map(|c| (cosine(&c.embedding, &query), c))
        .collect();
    assert_eq!(results.len(), 1);
    assert!((results[0].0 - 1.0).abs() < 1e-6);
}

#[test]
fn test_get_all_for_user() {
    let user = "test_user2";
    let mut disk = Disk::new();
    let two = day_file(&ROOT.to_string(), &user.to_string(), &days_ago(2));
    disk.files.insert(two, Vec::new());
    let mut repo = FsMessageRepo::new();
    save(&mut repo, &mut disk, &days_ago(5), user, chat(&uuid::Uuid::new_v4().to_string()));
    let chats = list_all(&disk, user, &today());
    assert_eq!(chats.len(), 1);
    assert_eq!(chats[0].content, "Hello");
    assert_eq!(chats[0].role, "user");
}

#[test]
fn save_then_get_cold_restart_and_fallback() {
    let mut repo = FsMessageRepo::new();
    let mut disk = Disk::new();
    let jan1 = Date::from_ymd(2024, 1, 1).unwrap();
    let c = ChatModel {
        role: "user".to_string(),
        content: "Hello".to_string(),
        hash: "h1".to_string(),
        embedding: embedding(),
    };
    let stored = save(&mut repo, &mut disk, &jan1, "alice", c.clone());
    assert_eq!(stored.hash, "h1");
    let path = day_file(&ROOT.to_string(), &"alice".to_string(), &jan1);
    assert_eq!(path, "/data/muninn/alice/2024-01-01/messages.json");
    let file = disk.read(&path);
    assert_eq!(file.len(), 1);
    assert_eq!(file[0].role, "user");
    assert_eq!(file[0].content, "Hello");
    assert_eq!(file[0].hash, "h1");
    assert_eq!(file[0].embedding, embedding());
    let got = get(&mut repo, &disk, "alice", "h1").unwrap();
    assert_eq!(got.content, "Hello");

    // A new process starts with an empty cache; a later day is current.
    let mut cold = FsMessageRepo::new();
    let later = Date::from_ymd(2024, 3, 1).unwrap();
    let today_file = disk.read(&day_file(&ROOT.to_string(), &"alice".to_string(), &later));
    let r = cold.get_chat("alice".to_string(), "h1".to_string(), &today_file);
    assert!(matches!(r, Err(RepoError::NotFound)));
    let listed = list_all(&disk, "alice", &later);
    assert_eq!(listed.len(), 1);
    assert_eq!(listed[0].hash, "h1");
}

#[test]
fn duplicate_identity_keeps_one_cache_entry_and_two_records() {
    let mut repo = FsMessageRepo::new();
    let mut disk = Disk::new();
    let d = Date::from_ymd(2024, 1, 2).unwrap();
    let mut second = chat("dup");
    second.content = "Again".to_string();
    save(&mut repo, &mut disk, &d, "bob", chat("dup"));
    save(&mut repo, &mut disk, &d, "bob", second);
    let got = repo.cached(&"bob".to_string(), &"dup".to_string()).unwrap();
    assert_eq!(got.content, "Again");
    let file = disk.read(&day_file(&ROOT.to_string(), &"bob".to_string(), &d));
    assert_eq!(file.len(), 2);
    assert_eq!(file[0].content, "Hello");
    assert_eq!(file[1].content, "Again");
}

#[test]
fn miss_loads_todays_file_into_the_cache() {
    let mut repo = FsMessageRepo::new();
    let day = vec![chat("a"), chat("b")];
    let got = repo.get_chat("carol".to_string(), "b".to_string(), &day).unwrap();
    assert_eq!(got.hash, "b");
    assert!(repo.cached(&"carol".to_string(), &"a".to_string()).is_some());
    assert!(repo.cached(&"dave".to_string(), &"a".to_string()).is_none());
}

#[test]
fn isolation_between_users() {
    let mut repo = FsMessageRepo::new();
    repo.save_chat("userA".to_string(), chat("x"));
    let r = repo.get_chat("userB".to_string(), "x".to_string(), &Vec::new());
    assert!(matches!(r, Err(RepoError::NotFound)));
    assert!(repo.get_chat("userA".to_string(), "x".to_string(), &Vec::new()).is_ok());
}

#[test]
fn empty_history_lists_nothing() {
    let disk = Disk::new();
    assert_eq!(list_all(&disk, "nobody", &today()).len(), 0);
}

#[test]
fn fallback_skips_empty_days_and_future_days() {
    let mut disk = Disk::new();
    let user = "erin".to_string();
    let root = ROOT.to_string();
    let now = Date::from_ymd(2024, 5, 10).unwrap();
    disk.files.insert(day_file(&root, &user, &Date::from_ymd(2024, 5, 9).unwrap()), Vec::new());
    disk.files.insert(day_file(&root, &user, &Date::from_ymd(2024, 5, 1).unwrap()), vec![chat("may")]);
    disk.files.insert(day_file(&root, &user, &Date::from_ymd(2024, 4, 30).unwrap()), vec![chat("april")]);
    disk.files.insert(day_file(&root, &user, &Date::from_ymd(2024, 6, 1).unwrap()), vec![chat("june")]);
    let listed = list_all(&disk, "erin", &now);
    assert_eq!(listed.len(), 1);
    assert_eq!(listed[0].hash, "may");
}

#[test]
fn listing_step_prefers_a_non_empty_file() {
    let d = Date::from_ymd(2024, 1, 1).unwrap();
    match listing_step(vec![chat("a")], &d, &vec![Date::from_ymd(2023, 12, 31).unwrap()]) {
        Listing::Done(v) => assert_eq!(v[0].hash, "a"),
        Listing::Load(_) => panic!("expected the loaded file"),
    }
    match listing_step(Vec::new(), &d, &vec![Date::from_ymd(2023, 12, 31).unwrap()]) {
        Listing::Load(x) => assert_eq!(x, Date::from_ymd(2023, 12, 31).unwrap()),
        Listing::Done(_) => panic!("expected an earlier day"),
    }
}

#[test]
fn latest_before_picks_the_latest_earlier_day() {
    let days = vec![
        Date::from_ymd(2023, 1, 5).unwrap(),
        Date::from_ymd(2023, 3, 1).unwrap(),
        Date::from_ymd(2023, 2, 28).unwrap(),
        Date::from_ymd(2024, 1, 1).unwrap(),
    ];
    let bound = Date::from_ymd(2023, 12, 1).unwrap();
    assert_eq!(latest_before(&days, &bound), Date::from_ymd(2023, 3, 1));
    assert_eq!(latest_before(&days, &Date::from_ymd(2023, 1, 5).unwrap()), None);
}

#[test]
fn dates_must_exist_in_the_calendar() {
    assert!(Date::from_ymd(2024, 2, 29).is_some());
    assert!(Date::from_ymd(2023, 2, 29).is_none());
    assert!(Date::from_ymd(1900, 2, 29).is_none());
    assert!(Date::from_ymd(2000, 2, 29).is_some());
    assert!(Date::from_ymd(2024, 4, 31).is_none());
    assert!(Date::from_ymd(2024, 13, 1).is_none());
    assert!(Date::from_ymd(2024, 1, 0).is_none());
    assert!(Date::from_ymd(262143, 1, 1).is_none());
}

#[test]
fn dates_are_written_and_read_as_chrono_does() {
    assert_eq!(Date::from_ymd(2024, 1, 1).unwrap().to_text(), "2024-01-01");
    assert_eq!(Date::from_ymd(812, 11, 9).unwrap().to_text(), "0812-11-09");
    assert_eq!(Date::parse(&"2024-02-29".to_string()), Date::from_ymd(2024, 2, 29));
    assert_eq!(Date::parse(&"2023-02-29".to_string()), None);
    assert_eq!(Date::parse(&"notes".to_string()), None);
}

#[test]
fn day_folders_that_are_no_dates_are_passed_over() {
    let names = vec!["2024-01-01".to_string(), "tmp".to_string(), "2023-12-31".to_string()];
    let days = day_folder_dates(&names);
    assert_eq!(days, vec![Date::from_ymd(2024, 1, 1).unwrap(), Date::from_ymd(2023, 12, 31).unwrap()]);
}

#[test]
fn paths_follow_root_namespace_user_and_day() {
    let root = "/var/store".to_string();
    let user = "Zoe".to_string();
    assert_eq!(user_root(&root, &user), "/var/store/muninn/Zoe");
    let d = Date::from_ymd(2023, 7, 4).unwrap();
    assert_eq!(day_file(&root, &user, &d), "/var/store/muninn/Zoe/2023-07-04/messages.json");
}

#[test]
fn stub_repository_answers_with_fixed_values() {
    let mut stub = MockMessageRepo::new();
    let c = stub.save_chat("u".to_string(), chat("s"));
    assert_eq!(c.hash, "s");
    let got = stub.get_chat("u".to_string(), "wanted".to_string()).unwrap();
    assert_eq!(got.hash, "wanted");
    assert_eq!(got.role, "user");
    assert_eq!(got.content, "Hello");
    assert_eq!(got.embedding, embedding());
    assert_eq!(stub.get_all_for_user("u".to_string()).len(), 0);
    assert_eq!(stub.search_hit().hash, "123");
}
